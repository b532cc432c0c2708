use vstd::prelude::*;
use crate::base::error::Error;
use crate::crypto::sha3::{sha3_256, sha3_256_spec};
use crate::util::cstring::str_from_utf8;
use vstd::string::StringSliceAdditionalSpecFns;
use vstd::utf8::*;

verus! {

/// The number of verses in the text.
pub const BIBLE_VERSE_COUNT: usize = 31107;

/// The SHA3-256 digest that the text must have.
pub open spec fn bible_hash_spec() -> Seq<u8> {
    seq![74u8, 250, 234, 251, 53, 214, 95, 98, 53, 200, 128, 99, 85, 98, 96, 39, 84, 185, 194, 248, 203,
        235, 56, 26, 253, 230, 106, 249, 73, 223, 22, 4]
}

/// The SHA3-256 digest that the text must have.
fn bible_hash() -> (r: [u8; 32])
    ensures
        r@ == bible_hash_spec(),
{
    let r = [74u8, 250, 234, 251, 53, 214, 95, 98, 53, 200, 128, 99, 85, 98, 96, 39, 84, 185, 194, 248, 203,
        235, 56, 26, 253, 230, 106, 249, 73, 223, 22, 4];
    assert(r@ =~= bible_hash_spec());
    r
}

/// The position of the first line feed of `d` at or after `i` (the length when there is
/// none).
pub open spec fn newline_from(d: Seq<u8>, i: int) -> int
    decreases d.len() - i,
{
    if i < 0 || i >= d.len() {
        d.len() as int
    } else if d[i] == 10 {
        i
    } else {
        newline_from(d, i + 1)
    }
}

/// Where the line after the one starting at `start` starts: just past its line feed, or the
/// end of the text. A line that is only a line feed does not advance.
pub open spec fn line_next(d: Seq<u8>, start: int) -> int {
    if d[start] == 10 {
        start
    } else if newline_from(d, start) < d.len() {
        newline_from(d, start) + 1
    } else {
        d.len() as int
    }
}

/// The starts of at most `room` lines, from `start` on.
pub open spec fn line_starts(d: Seq<u8>, start: int, room: nat) -> Seq<int>
    decreases room,
{
    if room == 0 || start < 0 || start >= d.len() {
        Seq::empty()
    } else {
        seq![start] + line_starts(d, line_next(d, start), (room - 1) as nat)
    }
}

/// The verse index of a text: the starts of its first lines, zero for verses past its end,
/// and, last, the text's length plus two.
pub open spec fn indices_spec(d: Seq<u8>) -> Seq<u32> {
    let s = line_starts(d, 0, (BIBLE_VERSE_COUNT + 1) as nat);
    Seq::new((BIBLE_VERSE_COUNT + 1) as nat, |i: int|
        if i == BIBLE_VERSE_COUNT {
            (d.len() + 2) as u32
        } else if i < s.len() {
            s[i] as u32
        } else {
            0u32
        })
}

/// Line starts are positions in the text, and there are at most `room` of them.
proof fn lemma_line_starts_bounds(d: Seq<u8>, start: int, room: nat)
    ensures
        line_starts(d, start, room).len() <= room,
        forall|i: int| 0 <= i < line_starts(d, start, room).len() ==> 0 <= #[trigger] line_starts(d, start, room)[i] < d.len(),
    decreases room,
{
    if !(room == 0 || start < 0 || start >= d.len()) {
        lemma_line_starts_bounds(d, line_next(d, start), (room - 1) as nat);
        let r = line_starts(d, line_next(d, start), (room - 1) as nat);
        assert forall|i: int| 0 <= i < line_starts(d, start, room).len() implies 0 <= #[trigger] line_starts(d, start, room)[i] < d.len() by {
            if i > 0 {
                assert(line_starts(d, start, room)[i] == r[i - 1]);
            }
        }
    }
}

/// The first line feed at or after `i` is found, with none before it.
proof fn lemma_newline_from(d: Seq<u8>, i: int)
    requires
        0 <= i <= d.len(),
    ensures
        i <= newline_from(d, i) <= d.len(),
        newline_from(d, i) < d.len() ==> d[newline_from(d, i)] == 10,
        forall|j: int| i <= j < newline_from(d, i) ==> d[j] != 10,
    decreases d.len() - i,
{
    if i < d.len() && d[i] != 10 {
        lemma_newline_from(d, i + 1);
    }
}

/// From `a`, a line of `d` runs to just before `b`: either `a` holds a line feed alone and
/// `b` is `a`, or the bytes from `a` up to `b - 1` hold no line feed and `b - 1` holds one.
pub open spec fn is_line(d: Seq<u8>, a: int, b: int) -> bool {
    &&& d[a] == 10 ==> b == a
    &&& d[a] != 10 ==> a < b && d[b - 1] == 10 && forall|j: int| a <= j < b - 1 ==> d[j] != 10
}

/// Line starts mark lines: the first is where the search starts (0 for a text), and
/// between two consecutive starts lies one line, ending with its line feed.
pub proof fn lemma_line_starts_lines(d: Seq<u8>, start: int, room: nat)
    requires
        0 <= start,
    ensures
        room > 0 && start < d.len() ==> line_starts(d, start, room).len() > 0 && line_starts(d, start, room)[0] == start,
        forall|k: int| 0 <= k < line_starts(d, start, room).len() - 1
            ==> #[trigger] is_line(d, line_starts(d, start, room)[k], line_starts(d, start, room)[k + 1]),
    decreases room,
{
    let ls = line_starts(d, start, room);
    if !(room == 0 || start >= d.len()) {
        let next = line_next(d, start);
        lemma_newline_from(d, start);
        assert(start <= next <= d.len());
        let rest = line_starts(d, next, (room - 1) as nat);
        lemma_line_starts_lines(d, next, (room - 1) as nat);
        lemma_line_starts_bounds(d, next, (room - 1) as nat);
        assert(ls == seq![start] + rest);
        assert forall|k: int| 0 <= k < ls.len() - 1 implies #[trigger] is_line(d, ls[k], ls[k + 1]) by {
            if k == 0 {
                assert(rest.len() > 0);
                assert(next < d.len());
                assert(ls[1] == rest[0] && rest[0] == next);
                if d[start] != 10 {
                    assert(newline_from(d, start) < d.len());
                    assert(next == newline_from(d, start) + 1);
                }
            } else {
                assert(ls[k] == rest[k - 1] && ls[k + 1] == rest[k]);
                assert(is_line(d, rest[k - 1], rest[(k - 1) + 1]));
            }
        }
    }
}

/// The verse index of `data` (see `indices_spec`).
pub fn build_indices(data: &[u8]) -> (r: Vec<u32>)
    requires
        data@.len() + 2 <= u32::MAX,
    ensures
        r@ == indices_spec(data@),
{
    let n: usize = BIBLE_VERSE_COUNT + 1;
    let len = data.len();
    let mut ret: Vec<u32> = Vec::new();
    while ret.len() < n
        invariant
            ret@.len() <= n,
            n == BIBLE_VERSE_COUNT + 1,
            forall|i: int| 0 <= i < ret@.len() ==> ret@[i] == 0,
        decreases n - ret@.len(),
    {
        ret.push(0);
    }
    let ghost total = line_starts(data@, 0, n as nat);
    let ghost mut done: Seq<int> = Seq::empty();
    let mut offt: usize = 0;
    let mut count: usize = 0;
    while offt < len && count < n
        invariant
            len == data@.len(),
            len + 2 <= u32::MAX,
            n == BIBLE_VERSE_COUNT + 1,
            ret@.len() == n,
            count <= n,
            offt <= len,
            done.len() == count,
            total == line_starts(data@, 0, n as nat),
            done + line_starts(data@, offt as int, (n - count) as nat) == total,
            forall|i: int| 0 <= i < count ==> ret@[i] == done[i] as u32,
            forall|i: int| count <= i < n ==> ret@[i] == 0,
        decreases n - count,
    {
        let start = offt;
        let next: usize = if data[start] == 10 {
            start
        } else {
            let mut k: usize = start;
            while k < len && data[k] != 10
                invariant
                    start <= k <= len,
                    len == data@.len(),
                    start < len,
                    data@[start as int] != 10,
                    newline_from(data@, start as int) == newline_from(data@, k as int),
                decreases len - k,
            {
                k += 1;
            }
            if k < len { k + 1 } else { len }
        };
        assert(next == line_next(data@, start as int));
        proof {
            let rest = line_starts(data@, start as int, (n - count) as nat);
            assert(rest == seq![start as int] + line_starts(data@, next as int, (n - count - 1) as nat));
            assert(done.push(start as int) + line_starts(data@, next as int, (n - count - 1) as nat) =~= done + rest);
            done = done.push(start as int);
        }
        ret.set(count, start as u32);
        count += 1;
        offt = next;
    }
    proof {
        assert(line_starts(data@, offt as int, (n - count) as nat) =~= Seq::<int>::empty());
        assert(done =~= total);
        lemma_line_starts_bounds(data@, 0, n as nat);
    }
    ret.set(BIBLE_VERSE_COUNT, (len + 2) as u32);
    assert(ret@ =~= indices_spec(data@));
    ret
}

/// The text of verse `v` (counted modulo the number of verses): from its start, up to two
/// bytes before the next verse's start; `None` when that span is shorter than two bytes,
/// runs past the text, or is not UTF-8.
pub open spec fn verse_spec(d: Seq<u8>, idx: Seq<u32>, v: int) -> Option<Seq<u8>> {
    let i = v % (BIBLE_VERSE_COUNT as int);
    let a = idx[i] as int;
    let b = idx[i + 1] as int;
    if b < a + 2 || b - 2 > d.len() {
        None
    } else if !valid_utf8(d.subrange(a, b - 2)) {
        None
    } else {
        Some(d.subrange(a, b - 2))
    }
}

/// A verse is its own line of the text: with `v` counted modulo the number of verses, the
/// text given for verse `v` starts where line `v` of the text starts (the first line is
/// line 0), not at another line; it ends two bytes before the next line starts, and the last
/// verse runs to the end of the text.
pub proof fn lemma_verse_is_its_line(d: Seq<u8>, v: int)
    requires
        v >= 0,
        d.len() + 2 <= u32::MAX,
    ensures
        ({
            let ls = line_starts(d, 0, (BIBLE_VERSE_COUNT + 1) as nat);
            let i = v % (BIBLE_VERSE_COUNT as int);
            verse_spec(d, indices_spec(d), v) matches Some(s) ==> i < ls.len() ==> {
                &&& s == d.subrange(ls[i], ls[i] + s.len())
                &&& i + 1 < BIBLE_VERSE_COUNT && i + 1 < ls.len() ==> ls[i] + s.len() + 2 == ls[i + 1]
                &&& i + 1 == BIBLE_VERSE_COUNT ==> ls[i] + s.len() == d.len()
            }
        }),
{
    let ls = line_starts(d, 0, (BIBLE_VERSE_COUNT + 1) as nat);
    let i = v % (BIBLE_VERSE_COUNT as int);
    lemma_line_starts_bounds(d, 0, (BIBLE_VERSE_COUNT + 1) as nat);
    let idx = indices_spec(d);
    if i < ls.len() {
        assert(0 <= ls[i] < d.len());
        assert(idx[i] as int == ls[i]);
        if i + 1 < BIBLE_VERSE_COUNT && i + 1 < ls.len() {
            assert(0 <= ls[i + 1] < d.len());
            assert(idx[i + 1] as int == ls[i + 1]);
        }
        if i + 1 == BIBLE_VERSE_COUNT {
            assert(idx[i + 1] as int == d.len() + 2);
        }
        if verse_spec(d, idx, v) is Some {
            let s = verse_spec(d, idx, v)->Some_0;
            assert(s == d.subrange(idx[i] as int, idx[i + 1] as int - 2));
        }
    }
}

/// A text of verses, one per line, checked against its digest, with its verse index.
pub struct Bible {
    data: Vec<u8>,
    indices: Vec<u32>,
}

impl Bible {
    /// The text.
    pub closed spec fn text(&self) -> Seq<u8> {
        self.data@
    }

    /// The verse index.
    pub closed spec fn index(&self) -> Seq<u32> {
        self.indices@
    }

    /// The index is the one of the text.
    pub closed spec fn wf(&self) -> bool {
        self.indices@ == indices_spec(self.data@)
    }

    /// The text `data` with its verse index; `ValidationFailed` when its SHA3-256 digest is
    /// not the expected one.
    pub fn new(data: Vec<u8>) -> (r: Result<Self, Error>)
        requires
            data@.len() + 2 <= u32::MAX,
        ensures
            sha3_256_spec(data@) != bible_hash_spec() ==> r == Err::<Self, Error>(Error::ValidationFailed),
            sha3_256_spec(data@) == bible_hash_spec() ==> (r matches Ok(b) && b.wf() && b.text() == data@),
    {
        let hash = sha3_256(data.as_slice());
        let expected = bible_hash();
        let mut i: usize = 0;
        while i < 32
            invariant
                i <= 32,
                hash@.len() == 32,
                expected@.len() == 32,
                expected@ == bible_hash_spec(),
                hash@ == sha3_256_spec(data@),
                forall|j: int| 0 <= j < i ==> hash@[j] == expected@[j],
            decreases 32 - i,
        {
            if hash[i] != expected[i] {
                assert(hash@[i as int] != bible_hash_spec()[i as int]);
                return Err(Error::ValidationFailed);
            }
            i += 1;
        }
        assert(hash@ =~= expected@);
        let indices = build_indices(data.as_slice());
        Ok(Bible { data, indices })
    }

    /// The text of verse `v`, counted modulo the number of verses (see `verse_spec`).
    pub fn find_mod(&self, v: usize) -> (r: Option<&str>)
        requires
            self.wf(),
        ensures
            match verse_spec(self.text(), self.index(), v as int) {
                Some(s) => r matches Some(t) && t.spec_bytes() == s,
                None => r is None,
            },
    {
        let i = v % BIBLE_VERSE_COUNT;
        let a = self.indices[i];
        let b = self.indices[i + 1];
        if b < 2 || b - 2 < a || (b - 2) as usize > self.data.len() {
            return None;
        }
        let slice = vstd::slice::slice_subrange(self.data.as_slice(), a as usize, (b - 2) as usize);
        str_from_utf8(slice)
    }
}

} // verus!
