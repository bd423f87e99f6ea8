//! The text edit buffer: characters and a cursor kept as a byte offset.
//!
//! A buffer is modelled as its characters `b` and its cursor `p`, the
//! UTF-8 byte offset of a character boundary: `p == byte_len(b.take(k))`
//! for the character index `k` before which the cursor stands.
use vstd::prelude::*;
use crate::text::{byte_len, char_width, lemma_byte_len_append, lemma_byte_len_monotone, lemma_byte_offset_injective, push_char};

verus! {

/// The byte offset `p` falls between characters of `b`.
pub open spec fn cursor_ok(b: Seq<char>, p: nat) -> bool {
    exists|k: int| 0 <= k <= b.len() && byte_len(#[trigger] b.take(k)) == p
}

/// The character index at byte offset `p`.
pub open spec fn char_at_byte(b: Seq<char>, p: nat) -> int {
    choose|k: int| 0 <= k <= b.len() && byte_len(#[trigger] b.take(k)) == p
}

pub proof fn lemma_char_at_byte(b: Seq<char>, p: nat, k: int)
    requires
        0 <= k <= b.len(),
        byte_len(b.take(k)) == p,
    ensures
        char_at_byte(b, p) == k,
{
    let c = char_at_byte(b, p);
    assert(0 <= c <= b.len() && byte_len(b.take(c)) == p);
    lemma_byte_offset_injective(b, c, k);
}

pub proof fn lemma_take_all(b: Seq<char>)
    ensures
        b.take(b.len() as int) == b,
{
    assert(b.take(b.len() as int) =~= b);
}

/// `c` typed at the cursor: inserted before it, the cursor after it.
pub open spec fn typed(b: Seq<char>, p: nat, c: char) -> (Seq<char>, nat) {
    let k = char_at_byte(b, p);
    (b.take(k) + seq![c] + b.skip(k), p + char_width(c))
}

/// Backspace: the character before the cursor removed, the cursor at
/// its place; nothing at the start.
pub open spec fn backspaced(b: Seq<char>, p: nat) -> (Seq<char>, nat) {
    let k = char_at_byte(b, p);
    if p > 0 {
        (b.take(k - 1) + b.skip(k), byte_len(b.take(k - 1)))
    } else {
        (b, p)
    }
}

/// Delete: the character after the cursor removed; nothing at the end.
pub open spec fn deleted(b: Seq<char>, p: nat) -> (Seq<char>, nat) {
    let k = char_at_byte(b, p);
    if p < byte_len(b) {
        (b.take(k) + b.skip(k + 1), p)
    } else {
        (b, p)
    }
}

/// The cursor one character to the left; nothing at the start.
pub open spec fn moved_left(b: Seq<char>, p: nat) -> (Seq<char>, nat) {
    let k = char_at_byte(b, p);
    if p > 0 {
        (b, byte_len(b.take(k - 1)))
    } else {
        (b, p)
    }
}

/// The cursor one character to the right; nothing at the end.
pub open spec fn moved_right(b: Seq<char>, p: nat) -> (Seq<char>, nat) {
    let k = char_at_byte(b, p);
    if p < byte_len(b) {
        (b, byte_len(b.take(k + 1)))
    } else {
        (b, p)
    }
}

/// The character index of byte offset `pos`.
pub fn char_index_at(cs: &Vec<char>, pos: usize) -> (k: usize)
    requires
        cursor_ok(cs@, pos as nat),
    ensures
        k <= cs@.len(),
        byte_len(cs@.take(k as int)) == pos,
        k == char_at_byte(cs@, pos as nat),
{
    let ghost kk = char_at_byte(cs@, pos as nat);
    let n = cs.len();
    let mut k: usize = 0;
    let mut acc: usize = 0;
    proof {
        assert(cs@.take(0) =~= Seq::<char>::empty());
    }
    while acc < pos
        invariant
            0 <= kk <= cs@.len(),
            n == cs@.len(),
            byte_len(cs@.take(kk)) == pos,
            k <= kk,
            acc == byte_len(cs@.take(k as int)),
            acc <= pos,
        decreases kk - k,
    {
        proof {
            if k == kk {
                assert(false);
            }
            lemma_byte_len_monotone(cs@, k + 1, kk);
            assert(cs@.take(k + 1).drop_last() =~= cs@.take(k as int));
            assert(cs@.take(k + 1).last() == cs@[k as int]);
        }
        acc = acc + crate::text::char_width_exec(cs[k]);
        k = k + 1;
    }
    proof {
        lemma_char_at_byte(cs@, pos as nat, k as int);
    }
    k
}

/// Whether byte offset `pos` lies on a character boundary of `s`.
pub fn cursor_ok_exec(s: &str, pos: usize) -> (r: bool)
    ensures
        r == cursor_ok(s@, pos as nat),
{
    let cs = crate::text::chars_of(s);
    let mut k: usize = 0;
    let mut acc: usize = 0;
    proof {
        assert(cs@.take(0) =~= Seq::<char>::empty());
    }
    while acc < pos && k < cs.len()
        invariant
            cs@ == s@,
            k <= cs@.len(),
            acc == byte_len(cs@.take(k as int)),
            forall|j: int| 0 <= j < k ==> byte_len(#[trigger] cs@.take(j)) < pos,
        decreases cs@.len() - k,
    {
        proof {
            assert(cs@.take(k + 1).drop_last() =~= cs@.take(k as int));
            assert(cs@.take(k + 1).last() == cs@[k as int]);
        }
        let w = crate::text::char_width_exec(cs[k]);
        match acc.checked_add(w) {
            Some(next) => {
                acc = next;
                k = k + 1;
            },
            None => {
                proof {
                    assert forall|j: int| 0 <= j <= cs@.len() implies byte_len(#[trigger] cs@.take(j)) != pos by {
                        if j > k {
                            crate::text::lemma_byte_len_monotone(cs@, k + 1, j);
                        }
                    }
                }
                return false;
            },
        }
    }
    proof {
        if acc != pos {
            assert forall|j: int| 0 <= j <= cs@.len() implies byte_len(#[trigger] cs@.take(j)) != pos by {
                if j >= k {
                    crate::text::lemma_byte_len_monotone(cs@, k as int, j);
                    if acc < pos {
                        assert(k == cs@.len());
                    }
                }
            }
        }
    }
    acc == pos
}

/// The characters `cs[..lo]`, then `mid` if any, then `cs[hi..]`.
pub fn splice(cs: &Vec<char>, lo: usize, hi: usize, mid: Option<char>) -> (s: String)
    requires
        lo <= hi <= cs@.len(),
    ensures
        s@ == cs@.take(lo as int) + (match mid {
            Some(c) => seq![c],
            None => Seq::empty(),
        }) + cs@.skip(hi as int),
{
    let mut s = String::new();
    let mut i: usize = 0;
    while i < lo
        invariant
            lo <= hi <= cs@.len(),
            i <= lo,
            s@ == cs@.take(i as int),
        decreases lo - i,
    {
        push_char(&mut s, cs[i]);
        proof {
            assert(cs@.take(i + 1) =~= cs@.take(i as int).push(cs@[i as int]));
        }
        i = i + 1;
    }
    let ghost head = s@;
    if let Some(c) = mid {
        push_char(&mut s, c);
    }
    let ghost middle = s@;
    let mut j: usize = hi;
    while j < cs.len()
        invariant
            hi <= j <= cs@.len(),
            s@ == middle + cs@.subrange(hi as int, j as int),
        decreases cs@.len() - j,
    {
        push_char(&mut s, cs[j]);
        proof {
            assert(cs@.subrange(hi as int, j + 1) =~= cs@.subrange(hi as int, j as int).push(cs@[j as int]));
        }
        j = j + 1;
    }
    proof {
        assert(cs@.subrange(hi as int, cs@.len() as int) =~= cs@.skip(hi as int));
        match mid {
            Some(c) => assert(s@ =~= cs@.take(lo as int) + seq![c] + cs@.skip(hi as int)),
            None => assert(s@ =~= cs@.take(lo as int) + Seq::<char>::empty() + cs@.skip(hi as int)),
        }
    }
    s
}

pub proof fn lemma_byte_len_one(c: char)
    ensures
        byte_len(seq![c]) == char_width(c),
{
    assert(seq![c].drop_last() =~= Seq::<char>::empty());
    assert(byte_len(Seq::<char>::empty()) == 0);
    assert(seq![c].last() == c);
}

pub proof fn lemma_byte_len_take_le(b: Seq<char>, k: int)
    requires
        0 <= k <= b.len(),
    ensures
        byte_len(b.take(k)) <= byte_len(b),
{
    lemma_byte_len_monotone(b, k, b.len() as int);
    lemma_take_all(b);
}

/// After typing, the cursor stands after the typed character.
pub proof fn lemma_typed(b: Seq<char>, p: nat, c: char)
    requires
        cursor_ok(b, p),
    ensures
        cursor_ok(typed(b, p, c).0, typed(b, p, c).1),
        char_at_byte(typed(b, p, c).0, typed(b, p, c).1) == char_at_byte(b, p) + 1,
        byte_len(typed(b, p, c).0) == byte_len(b) + char_width(c),
        typed(b, p, c).0.len() == b.len() + 1,
{
    let k = char_at_byte(b, p);
    let nb = typed(b, p, c).0;
    assert(nb.take(k + 1) =~= b.take(k) + seq![c]);
    lemma_byte_len_append(b.take(k), seq![c]);
    lemma_byte_len_one(c);
    lemma_char_at_byte(nb, p + char_width(c), k + 1);
    assert(nb =~= (b.take(k) + seq![c]) + b.skip(k));
    lemma_byte_len_append(b.take(k) + seq![c], b.skip(k));
    assert(b =~= b.take(k) + b.skip(k));
    lemma_byte_len_append(b.take(k), b.skip(k));
}

/// After a backspace, the cursor stands where the removed character was.
pub proof fn lemma_backspaced(b: Seq<char>, p: nat)
    requires
        cursor_ok(b, p),
        p > 0,
    ensures
        char_at_byte(b, p) >= 1,
        cursor_ok(backspaced(b, p).0, backspaced(b, p).1),
        char_at_byte(backspaced(b, p).0, backspaced(b, p).1) == char_at_byte(b, p) - 1,
{
    let k = char_at_byte(b, p);
    if k == 0 {
        assert(b.take(0) =~= Seq::<char>::empty());
    }
    let nb = backspaced(b, p).0;
    assert(nb.take(k - 1) =~= b.take(k - 1));
    lemma_char_at_byte(nb, byte_len(b.take(k - 1)), k - 1);
}

/// A delete leaves the cursor where it was.
pub proof fn lemma_deleted(b: Seq<char>, p: nat)
    requires
        cursor_ok(b, p),
        p < byte_len(b),
    ensures
        char_at_byte(b, p) < b.len(),
        cursor_ok(deleted(b, p).0, deleted(b, p).1),
        char_at_byte(deleted(b, p).0, p) == char_at_byte(b, p),
{
    let k = char_at_byte(b, p);
    if k == b.len() {
        lemma_take_all(b);
    }
    let nb = deleted(b, p).0;
    assert(nb.take(k) =~= b.take(k));
    lemma_char_at_byte(nb, p, k);
}

pub proof fn lemma_moved_left(b: Seq<char>, p: nat)
    requires
        cursor_ok(b, p),
        p > 0,
    ensures
        char_at_byte(b, p) >= 1,
        cursor_ok(moved_left(b, p).0, moved_left(b, p).1),
        char_at_byte(b, moved_left(b, p).1) == char_at_byte(b, p) - 1,
{
    let k = char_at_byte(b, p);
    if k == 0 {
        assert(b.take(0) =~= Seq::<char>::empty());
    }
    lemma_char_at_byte(b, byte_len(b.take(k - 1)), k - 1);
}

pub proof fn lemma_moved_right(b: Seq<char>, p: nat)
    requires
        cursor_ok(b, p),
        p < byte_len(b),
    ensures
        char_at_byte(b, p) < b.len(),
        cursor_ok(moved_right(b, p).0, moved_right(b, p).1),
        char_at_byte(b, moved_right(b, p).1) == char_at_byte(b, p) + 1,
{
    let k = char_at_byte(b, p);
    if k == b.len() {
        lemma_take_all(b);
    }
    lemma_char_at_byte(b, byte_len(b.take(k + 1)), k + 1);
}

// ---------------------------------------------------------------------
// Laws of the edit buffer
// ---------------------------------------------------------------------

/// A backspace right after typing a character gives back the buffer and
/// cursor from before the typing.
pub proof fn law_backspace_undoes_typing(b: Seq<char>, p: nat, c: char)
    requires
        cursor_ok(b, p),
    ensures
        backspaced(typed(b, p, c).0, typed(b, p, c).1) == (b, p),
{
    let k = char_at_byte(b, p);
    lemma_typed(b, p, c);
    let nb = typed(b, p, c).0;
    assert(nb.take(k) =~= b.take(k));
    assert(nb.skip(k + 1) =~= b.skip(k));
    assert(nb.take(k) + nb.skip(k + 1) =~= b);
    assert(byte_len(b.take(k)) == p);
}

/// Moving left after moving right (not at the end) puts the cursor back.
pub proof fn law_left_undoes_right(b: Seq<char>, p: nat)
    requires
        cursor_ok(b, p),
        p < byte_len(b),
    ensures
        moved_left(moved_right(b, p).0, moved_right(b, p).1) == (b, p),
{
    lemma_moved_right(b, p);
}

/// Moving right after moving left (not at the start) puts the cursor back.
pub proof fn law_right_undoes_left(b: Seq<char>, p: nat)
    requires
        cursor_ok(b, p),
        p > 0,
    ensures
        moved_right(moved_left(b, p).0, moved_left(b, p).1) == (b, p),
{
    lemma_moved_left(b, p);
    let k = char_at_byte(b, p);
    lemma_byte_len_take_le(b, k);
    lemma_byte_len_monotone(b, k - 1, k);
}

/// Typing a character, moving left over it and deleting it gives back
/// the buffer and cursor from before the typing.
pub proof fn law_delete_after_left_undoes_typing(b: Seq<char>, p: nat, c: char)
    requires
        cursor_ok(b, p),
    ensures
        ({
            let t = typed(b, p, c);
            let l = moved_left(t.0, t.1);
            deleted(l.0, l.1) == (b, p)
        }),
{
    let k = char_at_byte(b, p);
    lemma_typed(b, p, c);
    let t = typed(b, p, c);
    lemma_moved_left(t.0, t.1);
    let l = moved_left(t.0, t.1);
    assert(t.0.take(k) =~= b.take(k));
    assert(l.1 == p);
    lemma_byte_len_take_le(t.0, k);
    lemma_byte_len_monotone(t.0, k, k + 1);
    lemma_byte_len_take_le(t.0, k + 1);
    assert(t.0.skip(k + 1) =~= b.skip(k));
    assert(t.0.take(k) + t.0.skip(k + 1) =~= b);
}

} // verus!
