//! What a check of a proof detects: a proof that differs from an accepted one
//! in its element, in one sibling or in one direction is rejected, unless
//! SHA-256 gives two different messages the same digest.

use crate::digest::{leaf_hash, node_hash, sha256_hex};
use crate::inclusion::{climb, fold_path, MerkleProof};
use vstd::prelude::*;
use vstd::utf8::{encode_utf8, encode_utf8_decode_utf8};

verus! {

/// Whether SHA-256 gives some two different messages the same digest.
pub open spec fn sha256_collision() -> bool {
    exists|a: Seq<u8>, b: Seq<u8>| a != b && #[trigger] sha256_hex(a) == #[trigger] sha256_hex(b)
}

/// Different strings have different UTF-8 encodings.
pub proof fn lemma_encoding_is_injective(a: Seq<char>, b: Seq<char>)
    requires
        a != b,
    ensures
        encode_utf8(a) != encode_utf8(b),
{
    encode_utf8_decode_utf8(a);
    encode_utf8_decode_utf8(b);
}

/// The encoding of two strings in a row is their encodings in a row.
pub proof fn lemma_encoding_of_concat(a: Seq<char>, b: Seq<char>)
    ensures
        encode_utf8(a + b) == encode_utf8(a) + encode_utf8(b),
    decreases a.len(),
{
    if a.len() == 0 {
        assert(a + b =~= b);
        assert(encode_utf8(a) + encode_utf8(b) =~= encode_utf8(b));
    } else {
        lemma_encoding_of_concat(a.drop_first(), b);
        assert((a + b).drop_first() =~= a.drop_first() + b);
        assert((a + b)[0] == a[0]);
        assert(encode_utf8(a + b) =~= encode_utf8(a) + encode_utf8(b));
    }
}

/// Two different messages have different digests, unless SHA-256 collides.
pub proof fn lemma_digests_differ(a: Seq<u8>, b: Seq<u8>)
    requires
        a != b,
    ensures
        sha256_hex(a) != sha256_hex(b) || sha256_collision(),
{
}

/// One step up the tree keeps two different hashes apart, unless SHA-256
/// collides.
pub proof fn lemma_climb_keeps_apart(
    first: Seq<char>,
    second: Seq<char>,
    sibling: Seq<char>,
    direction: bool,
)
    requires
        first != second,
    ensures
        climb(first, sibling, direction) != climb(second, sibling, direction)
            || sha256_collision(),
{
    lemma_encoding_is_injective(first, second);
    let a = encode_utf8(first);
    let b = encode_utf8(second);
    let s = encode_utf8(sibling);
    if direction {
        if a + s == b + s {
            assert(a =~= (a + s).subrange(0, a.len() as int));
            assert(b =~= (b + s).subrange(0, b.len() as int));
            assert((a + s).len() == (b + s).len());
        }
        lemma_digests_differ(a + s, b + s);
    } else {
        if s + a == s + b {
            assert(a =~= (s + a).subrange(s.len() as int, (s + a).len() as int));
            assert(b =~= (s + b).subrange(s.len() as int, (s + b).len() as int));
        }
        lemma_digests_differ(s + a, s + b);
    }
}

/// Climbing with the same siblings and directions from the same start
/// reaches the same hash.
pub proof fn lemma_fold_agrees(
    start: Seq<char>,
    siblings: Seq<Seq<char>>,
    directions: Seq<bool>,
    other_siblings: Seq<Seq<char>>,
    other_directions: Seq<bool>,
    steps: nat,
)
    requires
        forall|k: int| 0 <= k < steps ==> siblings[k] == other_siblings[k],
        forall|k: int| 0 <= k < steps ==> directions[k] == other_directions[k],
    ensures
        fold_path(start, siblings, directions, steps) == fold_path(
            start,
            other_siblings,
            other_directions,
            steps,
        ),
    decreases steps,
{
    if steps > 0 {
        lemma_fold_agrees(
            start,
            siblings,
            directions,
            other_siblings,
            other_directions,
            (steps - 1) as nat,
        );
    }
}

/// Two climbs that have reached different hashes after `from` steps, and
/// take the same siblings and directions from there on, end at different
/// hashes, unless SHA-256 collides.
pub proof fn lemma_fold_stays_apart(
    start: Seq<char>,
    siblings: Seq<Seq<char>>,
    directions: Seq<bool>,
    other_start: Seq<char>,
    other_siblings: Seq<Seq<char>>,
    other_directions: Seq<bool>,
    from: nat,
    steps: nat,
)
    requires
        from <= steps,
        fold_path(start, siblings, directions, from) != fold_path(
            other_start,
            other_siblings,
            other_directions,
            from,
        ),
        forall|k: int| from <= k < steps ==> siblings[k] == other_siblings[k],
        forall|k: int| from <= k < steps ==> directions[k] == other_directions[k],
    ensures
        fold_path(start, siblings, directions, steps) != fold_path(
            other_start,
            other_siblings,
            other_directions,
            steps,
        ) || sha256_collision(),
    decreases steps,
{
    if steps > from {
        let before = (steps - 1) as nat;
        lemma_fold_stays_apart(
            start,
            siblings,
            directions,
            other_start,
            other_siblings,
            other_directions,
            from,
            before,
        );
        let first = fold_path(start, siblings, directions, before);
        let second = fold_path(other_start, other_siblings, other_directions, before);
        if first != second {
            lemma_climb_keeps_apart(
                first,
                second,
                siblings[before as int],
                directions[before as int],
            );
        }
    }
}

/// A proof with another element does not lead to the same root hash, unless
/// SHA-256 collides.
pub proof fn lemma_tampered_element_is_rejected(valid: MerkleProof, tampered: MerkleProof)
    requires
        tampered.element@ != valid.element@,
        tampered.siblings.deep_view() == valid.siblings.deep_view(),
        tampered.directions@ == valid.directions@,
    ensures
        tampered.computed_root() != valid.computed_root() || sha256_collision(),
{
    lemma_encoding_is_injective(valid.element@, tampered.element@);
    lemma_digests_differ(encode_utf8(valid.element@), encode_utf8(tampered.element@));
    assert(tampered.siblings@.len() == tampered.siblings.deep_view().len());
    assert(valid.siblings@.len() == valid.siblings.deep_view().len());
    if leaf_hash(valid.element@) != leaf_hash(tampered.element@) {
        lemma_fold_stays_apart(
            valid.start_hash(),
            valid.siblings.deep_view(),
            valid.directions@,
            tampered.start_hash(),
            tampered.siblings.deep_view(),
            tampered.directions@,
            0,
            valid.steps(),
        );
    }
}

/// A proof in which one sibling that the check reads is replaced by another
/// does not lead to the same root hash, unless SHA-256 collides.
pub proof fn lemma_tampered_sibling_is_rejected(
    valid: MerkleProof,
    tampered: MerkleProof,
    position: int,
)
    requires
        0 <= position < valid.steps(),
        tampered.element@ == valid.element@,
        tampered.directions@ == valid.directions@,
        tampered.siblings.deep_view().len() == valid.siblings.deep_view().len(),
        tampered.siblings.deep_view()[position] != valid.siblings.deep_view()[position],
        forall|k: int|
            0 <= k < valid.siblings.deep_view().len() && k != position
                ==> tampered.siblings.deep_view()[k] == valid.siblings.deep_view()[k],
    ensures
        tampered.computed_root() != valid.computed_root() || sha256_collision(),
{
    let start = valid.start_hash();
    let siblings = valid.siblings.deep_view();
    let changed = tampered.siblings.deep_view();
    let directions = valid.directions@;
    assert(tampered.siblings@.len() == changed.len());
    assert(valid.siblings@.len() == siblings.len());
    lemma_fold_agrees(start, siblings, directions, changed, directions, position as nat);
    let reached = fold_path(start, siblings, directions, position as nat);
    lemma_encoding_is_injective(siblings[position], changed[position]);
    let c = encode_utf8(reached);
    let a = encode_utf8(siblings[position]);
    let b = encode_utf8(changed[position]);
    if directions[position] {
        if c + a == c + b {
            assert(a =~= (c + a).subrange(c.len() as int, (c + a).len() as int));
            assert(b =~= (c + b).subrange(c.len() as int, (c + b).len() as int));
        }
        lemma_digests_differ(c + a, c + b);
    } else {
        if a + c == b + c {
            assert(a =~= (a + c).subrange(0, a.len() as int));
            assert(b =~= (b + c).subrange(0, b.len() as int));
            assert((a + c).len() == (b + c).len());
        }
        lemma_digests_differ(a + c, b + c);
    }
    let after = (position + 1) as nat;
    if fold_path(start, siblings, directions, after) != fold_path(
        start,
        changed,
        directions,
        after,
    ) {
        lemma_fold_stays_apart(
            start,
            siblings,
            directions,
            start,
            changed,
            directions,
            after,
            valid.steps(),
        );
    }
}

/// A proof in which one direction that the check reads is flipped does not
/// lead to the same root hash, unless SHA-256 collides. Left out is the
/// proof in which, at that step, the hash reached and the sibling give the
/// same string in either order: there the flip changes nothing.
pub proof fn lemma_tampered_direction_is_rejected(
    valid: MerkleProof,
    tampered: MerkleProof,
    position: int,
)
    requires
        0 <= position < valid.steps(),
        tampered.element@ == valid.element@,
        tampered.siblings.deep_view() == valid.siblings.deep_view(),
        tampered.directions@.len() == valid.directions@.len(),
        tampered.directions@[position] != valid.directions@[position],
        forall|k: int|
            0 <= k < valid.directions@.len() && k != position ==> tampered.directions@[k]
                == valid.directions@[k],
        fold_path(
            valid.start_hash(),
            valid.siblings.deep_view(),
            valid.directions@,
            position as nat,
        ) + valid.siblings.deep_view()[position] != valid.siblings.deep_view()[position]
            + fold_path(
            valid.start_hash(),
            valid.siblings.deep_view(),
            valid.directions@,
            position as nat,
        ),
    ensures
        tampered.computed_root() != valid.computed_root() || sha256_collision(),
{
    let start = valid.start_hash();
    let siblings = valid.siblings.deep_view();
    let directions = valid.directions@;
    let flipped = tampered.directions@;
    assert(tampered.siblings@.len() == siblings.len());
    assert(valid.siblings@.len() == siblings.len());
    lemma_fold_agrees(start, siblings, directions, siblings, flipped, position as nat);
    let reached = fold_path(start, siblings, directions, position as nat);
    let sibling = siblings[position];
    lemma_encoding_of_concat(reached, sibling);
    lemma_encoding_of_concat(sibling, reached);
    lemma_encoding_is_injective(reached + sibling, sibling + reached);
    lemma_digests_differ(
        encode_utf8(reached) + encode_utf8(sibling),
        encode_utf8(sibling) + encode_utf8(reached),
    );
    assert(node_hash(reached, sibling) != node_hash(sibling, reached) || sha256_collision());
    let after = (position + 1) as nat;
    if fold_path(start, siblings, directions, after) != fold_path(
        start,
        siblings,
        flipped,
        after,
    ) {
        lemma_fold_stays_apart(
            start,
            siblings,
            directions,
            start,
            siblings,
            flipped,
            after,
            valid.steps(),
        );
    }
}

} // verus!
