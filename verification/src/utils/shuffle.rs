//! The digest-seeded shuffle: a position array drawn from a string key.
//!
//! The array starts as the identity and is shuffled from its end: while `r`
//! entries remain, with `r` at least two, an index below `r` is drawn from
//! the key's stream and the entry there changes places with the last of the
//! `r`. An index is drawn by reading words of the stream until one lies
//! below the largest multiple of `r` that a word can reach, and reducing
//! that word modulo `r`; after `MAX_REJECTIONS` words were turned down, the
//! next is reduced whatever it is, so that a draw always ends.

use vstd::prelude::*;
use vstd::string::StringSliceAdditionalSpecFns;
use crate::digest::{stream_word, KeyStream};
use crate::permutation::{identity, is_permutation};

verus! {

/// The number of words that one draw may turn down.
pub const MAX_REJECTIONS: u32 = 64;

/// The largest multiple of `r` that is at most two to the power of 64.
pub open spec fn accept_limit(r: int) -> int {
    0x1_0000_0000_0000_0000int - 0x1_0000_0000_0000_0000int % r
}

/// The index below `r` that is drawn from word `w` of the stream on, with
/// `tries` words left to turn down, and the index of the word after the draw.
pub open spec fn draw(key: Seq<u8>, w: nat, r: int, tries: nat) -> (int, nat)
    decreases tries,
{
    let word = stream_word(key, w);
    if tries == 0 || word < accept_limit(r) {
        (word % r, w + 1)
    } else {
        draw(key, w + 1, r, (tries - 1) as nat)
    }
}

/// `p` with the entries at `i` and `j` exchanged.
pub open spec fn swapped(p: Seq<usize>, i: int, j: int) -> Seq<usize> {
    p.update(i, p[j]).update(j, p[i])
}

/// What the shuffle makes of `p` when `r` entries remain and the stream of
/// `key` stands at word `w`.
pub open spec fn shuffle_from(key: Seq<u8>, p: Seq<usize>, r: nat, w: nat) -> Seq<usize>
    decreases r,
{
    if r <= 1 {
        p
    } else {
        let drawn = draw(key, w, r as int, MAX_REJECTIONS as nat);
        shuffle_from(key, swapped(p, r - 1, drawn.0), (r - 1) as nat, drawn.1)
    }
}

/// The position array over `0..n` that the bytes `key` give.
pub open spec fn shuffle(n: nat, key: Seq<u8>) -> Seq<usize> {
    shuffle_from(key, identity(n), n, 0)
}

/// Exchanging two entries of a position array leaves a position array.
pub proof fn lemma_swapped_is_permutation(p: Seq<usize>, n: nat, i: int, j: int)
    requires
        is_permutation(p, n),
        0 <= i < n,
        0 <= j < n,
    ensures
        is_permutation(swapped(p, i, j), n),
{
    let q = swapped(p, i, j);
    assert forall|k: int, l: int| 0 <= k < l < q.len() implies #[trigger] q[k] != #[trigger] q[l] by {
        let sk = if k == i {
            j
        } else if k == j {
            i
        } else {
            k
        };
        let sl = if l == i {
            j
        } else if l == j {
            i
        } else {
            l
        };
        assert(q[k] == p[sk]);
        assert(q[l] == p[sl]);
        if sk < sl {
            assert(p[sk] != p[sl]);
        } else {
            assert(p[sl] != p[sk]);
        }
    }
}

/// The shuffle makes a position array of a position array.
pub proof fn lemma_shuffle_from_is_permutation(key: Seq<u8>, p: Seq<usize>, n: nat, r: nat, w: nat)
    requires
        is_permutation(p, n),
        r <= n,
    ensures
        is_permutation(shuffle_from(key, p, r, w), n),
    decreases r,
{
    if r > 1 {
        let drawn = draw(key, w, r as int, MAX_REJECTIONS as nat);
        lemma_draw_in_range(key, w, r as int, MAX_REJECTIONS as nat);
        lemma_swapped_is_permutation(p, n, r - 1, drawn.0);
        lemma_shuffle_from_is_permutation(key, swapped(p, r - 1, drawn.0), n, (r - 1) as nat, drawn.1);
    }
}

/// A draw for `r` gives an index below `r`.
pub proof fn lemma_draw_in_range(key: Seq<u8>, w: nat, r: int, tries: nat)
    requires
        r > 0,
    ensures
        0 <= draw(key, w, r, tries).0 < r,
    decreases tries,
{
    let word = stream_word(key, w);
    if tries == 0 || word < accept_limit(r) {
    } else {
        lemma_draw_in_range(key, w + 1, r, (tries - 1) as nat);
    }
}

/// Every key gives a position array over `0..n`.
pub proof fn lemma_shuffle_is_permutation(n: nat, key: Seq<u8>)
    requires
        n <= usize::MAX,
    ensures
        is_permutation(shuffle(n, key), n),
{
    lemma_shuffle_from_is_permutation(key, identity(n), n, n, 0);
}

/// The index below `r` that a word of the stream gives, where the word is
/// accepted: it lies below the largest multiple of `r` that a word can
/// reach, so that every index has as many words as any other.
pub fn accept_word(word: u64, r: u64) -> (j: Option<u64>)
    requires
        r > 0,
    ensures
        j == (if word < accept_limit(r as int) {
            Some((word % r) as u64)
        } else {
            None::<u64>
        }),
{
    let limit: u128 = 0x1_0000_0000_0000_0000u128 - 0x1_0000_0000_0000_0000u128 % (r as u128);
    if (word as u128) < limit {
        Some(word % r)
    } else {
        None
    }
}

/// Draws an index below `r` from the stream.
fn draw_index(stream: &mut KeyStream, r: u64) -> (j: u64)
    requires
        old(stream).well_formed(),
        r > 0,
    ensures
        final(stream).well_formed(),
        final(stream).key() == old(stream).key(),
        (j as int, final(stream).position()) == draw(
            old(stream).key(),
            old(stream).position(),
            r as int,
            MAX_REJECTIONS as nat,
        ),
        j < r,
{
    let mut tries: u32 = MAX_REJECTIONS;
    loop
        invariant
            stream.well_formed(),
            stream.key() == old(stream).key(),
            r > 0,
            draw(stream.key(), stream.position(), r as int, tries as nat) == draw(
                old(stream).key(),
                old(stream).position(),
                r as int,
                MAX_REJECTIONS as nat,
            ),
        decreases tries,
    {
        let word: u64 = stream.next_word();
        match accept_word(word, r) {
            Some(j) => {
                return j;
            },
            None => {
                if tries == 0 {
                    return word % r;
                }
                tries -= 1;
            },
        }
    }
}

/// The position array over `0..n` that `key` gives: the same array for the
/// same length and key, whenever and wherever it is asked for.
pub fn shuffle_with_key(n: usize, key: &str) -> (positions: Vec<usize>)
    ensures
        positions@ == shuffle(n as nat, key.spec_bytes()),
        is_permutation(positions@, n as nat),
{
    let mut positions: Vec<usize> = Vec::with_capacity(n);
    let mut k: usize = 0;
    while k < n
        invariant
            k <= n,
            positions@ == identity(k as nat),
        decreases n - k,
    {
        positions.push(k);
        assert(positions@ =~= identity((k + 1) as nat));
        k += 1;
    }
    let mut stream: KeyStream = KeyStream::new(key.as_bytes());
    let mut r: usize = n;
    proof {
        lemma_shuffle_is_permutation(n as nat, key.spec_bytes());
    }
    while r > 1
        invariant
            r <= n,
            stream.well_formed(),
            stream.key() == key.spec_bytes(),
            is_permutation(positions@, n as nat),
            shuffle_from(stream.key(), positions@, r as nat, stream.position()) == shuffle(
                n as nat,
                key.spec_bytes(),
            ),
        decreases r,
    {
        let j: usize = draw_index(&mut stream, r as u64) as usize;
        let last: usize = positions[r - 1];
        let other: usize = positions[j];
        proof {
            lemma_swapped_is_permutation(positions@, n as nat, r - 1, j as int);
            assert(positions@.update(r - 1, other).update(j as int, last) =~= swapped(
                positions@,
                r - 1,
                j as int,
            ));
        }
        positions.set(r - 1, other);
        positions.set(j, last);
        r -= 1;
    }
    positions
}

} // verus!
