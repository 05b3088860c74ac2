//! Random strings of letters and digits, for filling trees with test data.

use rand::rngs::ThreadRng;
use rand::Rng;
use vstd::prelude::*;

verus! {

#[verifier::external_type_specification]
#[verifier::external_body]
pub struct ExThreadRng(ThreadRng);

/// The characters that a random string is drawn from: the upper-case
/// letters, the lower-case letters and the digits.
pub open spec fn charset() -> Seq<char> {
    "ABCDEFGHIJKLMNOPQRSTUVWXYZabcdefghijklmnopqrstuvwxyz0123456789"@
}

/// The number of characters in the charset.
pub const CHARSET_LEN: usize = 62;

/// Calls `rand::thread_rng`, which hands out the random number generator of
/// the current thread. Nothing is claimed of it. The call panics where the
/// operating system gives no seed.
#[verifier::external_body]
fn thread_generator() -> (generator: ThreadRng) {
    rand::thread_rng()
}

/// Calls `Rng::gen_range` of the `rand` crate on the range from zero up to,
/// and without, `bound`. Trusted: the number drawn lies in that range,
/// whatever it is. The call panics on an empty range, which `requires`
/// leaves out.
#[verifier::external_body]
fn pick_below(generator: &mut ThreadRng, bound: usize) -> (pick: usize)
    requires
        bound > 0,
    ensures
        pick < bound,
{
    generator.gen_range(0..bound)
}

/// The character at position `pick` of the charset, as a string.
pub fn charset_symbol(pick: usize) -> (symbol: &'static str)
    requires
        pick < CHARSET_LEN,
    ensures
        symbol@ == seq![charset()[pick as int]],
{
    let symbols = "ABCDEFGHIJKLMNOPQRSTUVWXYZabcdefghijklmnopqrstuvwxyz0123456789";
    proof {
        reveal_strlit("ABCDEFGHIJKLMNOPQRSTUVWXYZabcdefghijklmnopqrstuvwxyz0123456789");
    }
    let symbol = symbols.substring_ascii(pick, pick + 1);
    assert(symbol@ =~= seq![charset()[pick as int]]);
    symbol
}

/// A string of `length` characters, each drawn at random from the charset.
pub fn generate_random_string(length: usize) -> (text: String)
    ensures
        text@.len() == length,
        forall|i: int| 0 <= i < length ==> charset().contains(#[trigger] text@[i]),
{
    let mut generator = thread_generator();
    let mut text = String::new();
    let mut drawn: usize = 0;
    proof {
        reveal_strlit("ABCDEFGHIJKLMNOPQRSTUVWXYZabcdefghijklmnopqrstuvwxyz0123456789");
    }
    while drawn < length
        invariant
            drawn <= length,
            charset().len() == CHARSET_LEN,
            text@.len() == drawn,
            forall|i: int| 0 <= i < drawn ==> charset().contains(#[trigger] text@[i]),
        decreases length - drawn,
    {
        let pick = pick_below(&mut generator, CHARSET_LEN);
        let symbol = charset_symbol(pick);
        let ghost before = text@;
        text.append(symbol);
        proof {
            assert forall|i: int| 0 <= i < drawn + 1 implies charset().contains(
                #[trigger] text@[i],
            ) by {
                if i < drawn {
                    assert(text@[i] == before[i]);
                } else {
                    assert(text@[i] == charset()[pick as int]);
                }
            }
        }
        drawn = drawn + 1;
    }
    text
}

} // verus!
