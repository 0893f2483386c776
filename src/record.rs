use vstd::prelude::*;
use crate::storage::{SealedTrie, Write};

verus! {

/// The four bytes of `n`, most significant first.
pub open spec fn u32_bytes(n: u32) -> Seq<u8> {
    seq![(n / 0x1000000) as u8, (n / 0x10000 % 0x100) as u8, (n / 0x100 % 0x100) as u8, (n % 0x100) as u8]
}

/// The number spelled by the four bytes of `b` from position `i`, most significant first.
#[verifier::opaque]
pub open spec fn u32_at(b: Seq<u8>, i: int) -> int {
    b[i] as int * 0x1000000 + b[i + 1] as int * 0x10000 + b[i + 2] as int * 0x100 + b[i + 3] as int
}

pub proof fn lemma_u32_round_trip(n: u32, rest: Seq<u8>)
    ensures
        (u32_bytes(n) + rest).len() == 4 + rest.len(),
        u32_at(u32_bytes(n) + rest, 0) == n,
{
    reveal(u32_at);
    let b = u32_bytes(n) + rest;
    assert(b[0] == (n / 0x1000000) as u8);
    assert(b[1] == (n / 0x10000 % 0x100) as u8);
    assert(b[2] == (n / 0x100 % 0x100) as u8);
    assert(b[3] == (n % 0x100) as u8);
    assert((n / 0x1000000) as u8 as int * 0x1000000 + (n / 0x10000 % 0x100) as u8 as int * 0x10000
        + (n / 0x100 % 0x100) as u8 as int * 0x100 + (n % 0x100) as u8 as int == n) by (nonlinear_arith);
}

/// Appends the four bytes of `n`.
pub fn push_u32(out: &mut Vec<u8>, n: u32)
    ensures
        final(out)@ == old(out)@ + u32_bytes(n),
{
    out.push((n / 0x1000000) as u8);
    out.push((n / 0x10000 % 0x100) as u8);
    out.push((n / 0x100 % 0x100) as u8);
    out.push((n % 0x100) as u8);
    assert(out@ =~= old(out)@ + u32_bytes(n));
}

/// Reads four bytes from position `pos`.
pub fn read_u32(b: &Vec<u8>, pos: usize) -> (r: Option<u32>)
    ensures
        pos + 4 <= b@.len() ==> r == Some(u32_at(b@, pos as int) as u32) && 0 <= u32_at(b@, pos as int) < 0x100000000,
        pos + 4 > b@.len() ==> r is None,
{
    proof {
        reveal(u32_at);
    }
    if pos > b.len() || b.len() - pos < 4 {
        return None;
    }
    let x0 = b[pos] as u32;
    let x1 = b[pos + 1] as u32;
    let x2 = b[pos + 2] as u32;
    let x3 = b[pos + 3] as u32;
    assert(x0 * 0x1000000 + x1 * 0x10000 + x2 * 0x100 + x3 < 0x100000000) by (nonlinear_arith)
        requires x0 < 256, x1 < 256, x2 < 256, x3 < 256;
    Some(x0 * 0x1000000 + x1 * 0x10000 + x2 * 0x100 + x3)
}

/// A write as plain bytes: the key, and the value or `None` for a delete.
pub type WriteBytes = (Seq<u8>, Option<Seq<u8>>);

/// A sealed trie as plain values: block identifier, parent position, writes.
pub type TrieBytes = (Seq<u8>, Option<usize>, Seq<WriteBytes>);

pub open spec fn write_view(w: Write) -> WriteBytes {
    (
        w.0@,
        match w.1 {
            Some(v) => Some(v@),
            None => None,
        },
    )
}

pub open spec fn trie_view(t: SealedTrie) -> TrieBytes {
    (t.block_id@, t.parent, t.writes@.map_values(|w: Write| write_view(w)))
}

// ---------------------------------------------------------------------------
// Encoding
// ---------------------------------------------------------------------------

/// A byte string preceded by its length.
pub open spec fn field(x: Seq<u8>) -> Seq<u8> {
    u32_bytes(x.len() as u32) + x
}

pub open spec fn write_bytes(w: WriteBytes) -> Seq<u8> {
    field(w.0) + match w.1 {
        None => seq![0u8],
        Some(v) => seq![1u8] + field(v),
    }
}

pub open spec fn writes_bytes(ws: Seq<WriteBytes>) -> Seq<u8>
    decreases ws.len(),
{
    if ws.len() == 0 {
        Seq::empty()
    } else {
        writes_bytes(ws.drop_last()) + write_bytes(ws.last())
    }
}

/// The record of a sealed trie: its block identifier, its parent (a flag byte,
/// then the position), the number of writes, and the writes in order.
pub open spec fn trie_record(t: TrieBytes) -> Seq<u8> {
    field(t.0) + parent_bytes(t.1) + u32_bytes(t.2.len() as u32) + writes_bytes(t.2)
}

/// A flag byte, then the parent's position where there is one.
pub open spec fn parent_bytes(p: Option<usize>) -> Seq<u8> {
    match p {
        None => seq![0u8],
        Some(x) => seq![1u8] + u32_bytes(x as u32),
    }
}

/// Every length and position of the record fits in four bytes.
pub open spec fn fits(t: TrieBytes) -> bool {
    &&& t.0.len() < 0x100000000
    &&& (t.1 matches Some(p) ==> p < 0x100000000)
    &&& t.2.len() < 0x100000000
    &&& forall|i: int|
        0 <= i < t.2.len() ==> (#[trigger] t.2[i]).0.len() < 0x100000000 && (t.2[i].1 matches Some(
            v,
        ) ==> v.len() < 0x100000000)
}

// ---------------------------------------------------------------------------
// Decoding
// ---------------------------------------------------------------------------

/// The length-prefixed byte string at `pos`, and the position after it.
#[verifier::opaque]
pub open spec fn field_at(b: Seq<u8>, pos: int) -> Option<(Seq<u8>, int)> {
    if 0 <= pos && pos + 4 <= b.len() && pos + 4 + u32_at(b, pos) <= b.len() {
        Some((b.subrange(pos + 4, pos + 4 + u32_at(b, pos)), pos + 4 + u32_at(b, pos)))
    } else {
        None
    }
}

#[verifier::opaque]
pub open spec fn write_at(b: Seq<u8>, pos: int) -> Option<(WriteBytes, int)> {
    match field_at(b, pos) {
        Some((k, p)) => if p < b.len() && b[p] == 0 {
            Some(((k, None), p + 1))
        } else if p < b.len() && b[p] == 1 {
            match field_at(b, p + 1) {
                Some((v, q)) => Some(((k, Some(v)), q)),
                None => None,
            }
        } else {
            None
        },
        None => None,
    }
}

/// `count` writes from `pos`, and the position after them.
pub open spec fn writes_at(b: Seq<u8>, pos: int, count: nat) -> Option<(Seq<WriteBytes>, int)>
    decreases count,
{
    if count == 0 {
        Some((Seq::empty(), pos))
    } else {
        match writes_at(b, pos, (count - 1) as nat) {
            Some((ws, p)) => match write_at(b, p) {
                Some((w, q)) => Some((ws.push(w), q)),
                None => None,
            },
            None => None,
        }
    }
}

/// The parent reference at `pos`, and the position after it.
#[verifier::opaque]
pub open spec fn parent_at(b: Seq<u8>, pos: int) -> Option<(Option<usize>, int)> {
    if 0 <= pos < b.len() && b[pos] == 0 {
        Some((None, pos + 1))
    } else if 0 <= pos < b.len() && b[pos] == 1 && pos + 5 <= b.len() {
        Some((Some(u32_at(b, pos + 1) as usize), pos + 5))
    } else {
        None
    }
}

pub open spec fn trie_at(b: Seq<u8>, pos: int) -> Option<(TrieBytes, int)> {
    match field_at(b, pos) {
        Some((id, p)) => match parent_at(b, p) {
            Some((par, q)) => if q + 4 <= b.len() {
                match writes_at(b, q + 4, u32_at(b, q) as nat) {
                    Some((ws, e)) => Some(((id, par, ws), e)),
                    None => None,
                }
            } else {
                None
            },
            None => None,
        },
        None => None,
    }
}

// ---------------------------------------------------------------------------
// Round trip
// ---------------------------------------------------------------------------

pub proof fn lemma_field_round_trip(pre: Seq<u8>, x: Seq<u8>, post: Seq<u8>)
    requires
        x.len() < 0x100000000,
    ensures
        field(x).len() == 4 + x.len(),
        field_at(pre + field(x) + post, pre.len() as int) == Some(
            (x, (pre.len() + field(x).len()) as int),
        ),
{
    reveal(field_at);
    reveal(u32_at);
    let b = pre + field(x) + post;
    let n = pre.len() as int;
    lemma_u32_round_trip(x.len() as u32, x + post);
    assert(u32_bytes(x.len() as u32) + (x + post) =~= b.subrange(n, b.len() as int));
    assert(u32_at(b, n) == u32_at(b.subrange(n, b.len() as int), 0));
    assert(b.subrange(n + 4, n + 4 + x.len()) =~= x);
}

pub proof fn lemma_write_round_trip(pre: Seq<u8>, w: WriteBytes, post: Seq<u8>)
    requires
        w.0.len() < 0x100000000,
        w.1 matches Some(v) ==> v.len() < 0x100000000,
    ensures
        write_at(pre + write_bytes(w) + post, pre.len() as int) == Some(
            (w, (pre.len() + write_bytes(w).len()) as int),
        ),
{
    reveal(write_at);
    let tail = match w.1 {
        None => seq![0u8],
        Some(v) => seq![1u8] + field(v),
    };
    let b = pre + write_bytes(w) + post;
    assert(b =~= pre + field(w.0) + (tail + post));
    lemma_field_round_trip(pre, w.0, tail + post);
    let p: int = (pre.len() + field(w.0).len()) as int;
    assert(b[p] == tail[0]);
    match w.1 {
        None => {},
        Some(v) => {
            assert(b =~= (pre + field(w.0) + seq![1u8]) + field(v) + post);
            lemma_field_round_trip(pre + field(w.0) + seq![1u8], v, post);
        },
    }
}

pub proof fn lemma_writes_round_trip(pre: Seq<u8>, ws: Seq<WriteBytes>, post: Seq<u8>)
    requires
        forall|i: int|
            0 <= i < ws.len() ==> (#[trigger] ws[i]).0.len() < 0x100000000 && (ws[i].1 matches Some(
                v,
            ) ==> v.len() < 0x100000000),
    ensures
        writes_at(pre + writes_bytes(ws) + post, pre.len() as int, ws.len()) == Some(
            (ws, (pre.len() + writes_bytes(ws).len()) as int),
        ),
    decreases ws.len(),
{
    if ws.len() > 0 {
        let init = ws.drop_last();
        let w = ws.last();
        let b = pre + writes_bytes(ws) + post;
        assert(b =~= pre + writes_bytes(init) + (write_bytes(w) + post));
        assert forall|i: int| 0 <= i < init.len() implies (#[trigger] init[i]).0.len() < 0x100000000 && (init[i].1 matches Some(
                v,
            ) ==> v.len() < 0x100000000) by {
            assert(init[i] == ws[i]);
        }
        lemma_writes_round_trip(pre, init, write_bytes(w) + post);
        assert(b =~= (pre + writes_bytes(init)) + write_bytes(w) + post);
        assert(ws[ws.len() - 1] == w);
        lemma_write_round_trip(pre + writes_bytes(init), w, post);
        assert(init.push(w) =~= ws);
    }
}

pub proof fn lemma_u32_at(pre: Seq<u8>, n: u32, post: Seq<u8>)
    ensures
        pre.len() + 4 <= (pre + u32_bytes(n) + post).len(),
        u32_at(pre + u32_bytes(n) + post, pre.len() as int) == n,
{
    reveal(u32_at);
    let b = pre + u32_bytes(n) + post;
    lemma_u32_round_trip(n, post);
    assert(b.subrange(pre.len() as int, b.len() as int) =~= u32_bytes(n) + post);
    assert(u32_at(b, pre.len() as int) == u32_at(u32_bytes(n) + post, 0));
}

pub proof fn lemma_parent_round_trip(pre: Seq<u8>, p: Option<usize>, post: Seq<u8>)
    requires
        p matches Some(x) ==> x < 0x100000000,
    ensures
        parent_at(pre + parent_bytes(p) + post, pre.len() as int) == Some(
            (p, (pre.len() + parent_bytes(p).len()) as int),
        ),
{
    reveal(parent_at);
    let b = pre + parent_bytes(p) + post;
    match p {
        None => {
            assert(b[pre.len() as int] == 0);
        },
        Some(x) => {
            assert(b[pre.len() as int] == 1);
            assert(b =~= (pre + seq![1u8]) + u32_bytes(x as u32) + post);
            lemma_u32_at(pre + seq![1u8], x as u32, post);
        },
    }
}

/// Reading back the record of a sealed trie gives the trie, and the position
/// just past the record, whatever bytes precede or follow it in the file.
pub proof fn law_trie_record_round_trip(pre: Seq<u8>, t: TrieBytes, post: Seq<u8>)
    requires
        fits(t),
    ensures
        trie_at(pre + trie_record(t) + post, pre.len() as int) == Some(
            (t, (pre.len() + trie_record(t).len()) as int),
        ),
{
    let b = pre + trie_record(t) + post;
    let pb = parent_bytes(t.1);
    let cb = u32_bytes(t.2.len() as u32);
    let wb = writes_bytes(t.2);
    assert(b =~= pre + field(t.0) + (pb + cb + wb + post));
    lemma_field_round_trip(pre, t.0, pb + cb + wb + post);
    let pre2 = pre + field(t.0);
    assert(b =~= pre2 + pb + (cb + wb + post));
    lemma_parent_round_trip(pre2, t.1, cb + wb + post);
    let pre3 = pre2 + pb;
    assert(b =~= pre3 + cb + (wb + post));
    lemma_u32_at(pre3, t.2.len() as u32, wb + post);
    let pre4 = pre3 + cb;
    assert(b =~= pre4 + wb + post);
    lemma_writes_round_trip(pre4, t.2, post);
}

// ---------------------------------------------------------------------------
// Executable encoder and decoder
// ---------------------------------------------------------------------------

/// Appends `x` preceded by its length.
pub fn push_field(out: &mut Vec<u8>, x: &Vec<u8>)
    requires
        x@.len() < 0x100000000,
    ensures
        final(out)@ == old(out)@ + field(x@),
{
    push_u32(out, x.len() as u32);
    let ghost mid = out@;
    let mut i: usize = 0;
    while i < x.len()
        invariant
            i <= x@.len(),
            out@ == mid + x@.take(i as int),
        decreases x@.len() - i,
    {
        out.push(x[i]);
        i = i + 1;
        assert(out@ =~= mid + x@.take(i as int));
    }
    assert(x@.take(i as int) =~= x@);
    assert(out@ =~= old(out)@ + field(x@));
}

/// The record of the sealed trie `t`.
pub fn encode_trie(t: &SealedTrie) -> (r: Vec<u8>)
    requires
        fits(trie_view(*t)),
    ensures
        r@ == trie_record(trie_view(*t)),
{
    let ghost tv = trie_view(*t);
    let mut out: Vec<u8> = Vec::new();
    push_field(&mut out, &t.block_id);
    match t.parent {
        None => {
            out.push(0);
        },
        Some(p) => {
            out.push(1);
            push_u32(&mut out, p as u32);
        },
    }
    assert(out@ =~= field(tv.0) + parent_bytes(tv.1));
    push_u32(&mut out, t.writes.len() as u32);
    let ghost start = out@;
    let mut i: usize = 0;
    while i < t.writes.len()
        invariant
            i <= t.writes@.len(),
            tv == trie_view(*t),
            fits(tv),
            out@ == start + writes_bytes(tv.2.take(i as int)),
        decreases t.writes@.len() - i,
    {
        let w = &t.writes[i];
        assert(tv.2[i as int] == write_view(*w));
        push_field(&mut out, &w.0);
        match &w.1 {
            None => {
                out.push(0);
            },
            Some(v) => {
                out.push(1);
                push_field(&mut out, v);
            },
        }
        let ghost pre = tv.2.take(i as int + 1);
        assert(pre.drop_last() =~= tv.2.take(i as int));
        i = i + 1;
        assert(out@ =~= start + writes_bytes(tv.2.take(i as int)));
    }
    assert(tv.2.take(i as int) =~= tv.2);
    assert(out@ =~= trie_record(tv));
    out
}

/// The length-prefixed byte string at `pos`.
pub fn read_field(b: &Vec<u8>, pos: usize) -> (r: Option<(Vec<u8>, usize)>)
    ensures
        match r {
            Some((x, p)) => field_at(b@, pos as int) == Some((x@, p as int)),
            None => field_at(b@, pos as int) is None,
        },
{
    proof {
        reveal(field_at);
    }
    let n = match read_u32(b, pos) {
        Some(n) => n,
        None => {
            return None;
        },
    };
    assert(n as int == u32_at(b@, pos as int));
    if b.len() - pos - 4 < n as usize {
        return None;
    }
    let start = pos + 4;
    let end = start + n as usize;
    let mut x: Vec<u8> = Vec::new();
    let mut i: usize = start;
    while i < end
        invariant
            start <= i <= end,
            end <= b@.len(),
            x@ == b@.subrange(start as int, i as int),
        decreases end - i,
    {
        x.push(b[i]);
        i = i + 1;
        assert(x@ =~= b@.subrange(start as int, i as int));
    }
    Some((x, end))
}

fn read_write(b: &Vec<u8>, pos: usize) -> (r: Option<(Write, usize)>)
    ensures
        match r {
            Some((w, p)) => write_at(b@, pos as int) == Some((write_view(w), p as int)),
            None => write_at(b@, pos as int) is None,
        },
{
    proof {
        reveal(write_at);
    }
    let (k, p) = match read_field(b, pos) {
        Some(x) => x,
        None => {
            return None;
        },
    };
    if p >= b.len() {
        return None;
    }
    if b[p] == 0 {
        Some(((k, None), p + 1))
    } else if b[p] == 1 {
        match read_field(b, p + 1) {
            Some((v, q)) => Some(((k, Some(v)), q)),
            None => None,
        }
    } else {
        None
    }
}

proof fn lemma_writes_at_none(b: Seq<u8>, pos: int, i: nat, count: nat)
    requires
        writes_at(b, pos, i) is None,
        i <= count,
    ensures
        writes_at(b, pos, count) is None,
    decreases count - i,
{
    if i < count {
        lemma_writes_at_none(b, pos, i, (count - 1) as nat);
    }
}

/// Reads back the record of a sealed trie at `pos`, and the position after it.
pub fn decode_trie(b: &Vec<u8>, pos: usize) -> (r: Option<(SealedTrie, usize)>)
    ensures
        match r {
            Some((t, p)) => trie_at(b@, pos as int) == Some((trie_view(t), p as int)),
            None => trie_at(b@, pos as int) is None,
        },
{
    let (block_id, p) = match read_field(b, pos) {
        Some(x) => x,
        None => {
            return None;
        },
    };
    proof {
        reveal(parent_at);
    }
    let (parent, q): (Option<usize>, usize) = if p < b.len() && b[p] == 0 {
        (None, p + 1)
    } else if p < b.len() && b[p] == 1 && b.len() - p >= 5 {
        match read_u32(b, p + 1) {
            Some(x) => {
                assert(x as int == u32_at(b@, p + 1));
                (Some(x as usize), p + 5)
            },
            None => {
                return None;
            },
        }
    } else {
        return None;
    };
    assert(parent_at(b@, p as int) == Some((parent, q as int)));
    if q > b.len() || b.len() - q < 4 {
        return None;
    }
    let count = match read_u32(b, q) {
        Some(c) => c,
        None => {
            return None;
        },
    };
    assert(count as int == u32_at(b@, q as int));
    let start = q + 4;
    let mut writes: Vec<Write> = Vec::new();
    let mut cur: usize = start;
    let mut i: u32 = 0;
    while i < count
        invariant
            i <= count,
            count as int == u32_at(b@, q as int),
            start == q + 4,
            q + 4 <= b@.len(),
            field_at(b@, pos as int) == Some((block_id@, p as int)),
            parent_at(b@, p as int) == Some((parent, q as int)),
            writes_at(b@, start as int, i as nat) == Some(
                (writes@.map_values(|w: Write| write_view(w)), cur as int),
            ),
        decreases count - i,
    {
        match read_write(b, cur) {
            Some((w, next)) => {
                let ghost prev = writes@.map_values(|w: Write| write_view(w));
                let ghost wv = write_view(w);
                writes.push(w);
                cur = next;
                i = i + 1;
                assert(writes@.map_values(|w: Write| write_view(w)) =~= prev.push(wv));
            },
            None => {
                proof {
                    assert(writes_at(b@, start as int, (i + 1) as nat) is None);
                    lemma_writes_at_none(b@, start as int, (i + 1) as nat, count as nat);
                    assert(count as int == u32_at(b@, q as int));
                }
                return None;
            },
        }
    }
    Some((SealedTrie { block_id, parent, writes }, cur))
}

// ---------------------------------------------------------------------------
// Files of records
// ---------------------------------------------------------------------------

/// The records of `ts`, one after another.
pub open spec fn records(ts: Seq<TrieBytes>) -> Seq<u8>
    decreases ts.len(),
{
    if ts.len() == 0 {
        Seq::empty()
    } else {
        records(ts.drop_last()) + trie_record(ts.last())
    }
}

/// Reading `ts.len()` records from the start of `b` gives `ts`; the result is
/// the position after the last one.
pub open spec fn records_parse(b: Seq<u8>, ts: Seq<TrieBytes>) -> Option<int>
    decreases ts.len(),
{
    if ts.len() == 0 {
        Some(0)
    } else {
        match records_parse(b, ts.drop_last()) {
            Some(p) => match trie_at(b, p) {
                Some((t, e)) => if t == ts.last() {
                    Some(e)
                } else {
                    None
                },
                None => None,
            },
            None => None,
        }
    }
}

/// A file made of the records of some tries reads back as those tries, and
/// the reading ends at the end of the last record.
pub proof fn law_records_round_trip(ts: Seq<TrieBytes>, post: Seq<u8>)
    requires
        forall|i: int| 0 <= i < ts.len() ==> fits(#[trigger] ts[i]),
    ensures
        records_parse(records(ts) + post, ts) == Some(records(ts).len() as int),
    decreases ts.len(),
{
    if ts.len() > 0 {
        let init = ts.drop_last();
        let last = ts.last();
        assert(fits(ts[ts.len() - 1]));
        assert forall|i: int| 0 <= i < init.len() implies fits(#[trigger] init[i]) by {
            assert(init[i] == ts[i]);
        }
        assert(records(ts) + post =~= records(init) + (trie_record(last) + post));
        law_records_round_trip(init, trie_record(last) + post);
        assert(records(ts) + post =~= records(init) + trie_record(last) + post);
        law_trie_record_round_trip(records(init), last, post);
    }
}

/// Whether every length and position of the record of `t` fits in four bytes.
pub fn record_fits(t: &SealedTrie) -> (r: bool)
    ensures
        r == fits(trie_view(*t)),
{
    let ghost tv = trie_view(*t);
    if t.block_id.len() as u64 >= 0x100000000u64 || t.writes.len() as u64 >= 0x100000000u64 {
        return false;
    }
    match t.parent {
        Some(p) => {
            if p as u64 >= 0x100000000u64 {
                return false;
            }
        },
        None => {},
    }
    let mut i: usize = 0;
    while i < t.writes.len()
        invariant
            i <= t.writes@.len(),
            tv == trie_view(*t),
            forall|j: int|
                0 <= j < i ==> (#[trigger] tv.2[j]).0.len() < 0x100000000 && (tv.2[j].1 matches Some(
                    v,
                ) ==> v.len() < 0x100000000),
        decreases t.writes@.len() - i,
    {
        let w = &t.writes[i];
        assert(tv.2[i as int] == write_view(*w));
        if w.0.len() as u64 >= 0x100000000u64 {
            return false;
        }
        match &w.1 {
            Some(v) => {
                if v.len() as u64 >= 0x100000000u64 {
                    return false;
                }
            },
            None => {},
        }
        i = i + 1;
    }
    true
}

/// The position after a decoded item.
pub open spec fn end_of<T>(r: Option<(T, int)>) -> int {
    match r {
        Some((_, e)) => e,
        None => 0,
    }
}

/// The decoded writes of a `writes_at` result.
pub open spec fn items_of(r: Option<(Seq<WriteBytes>, int)>) -> Seq<WriteBytes> {
    match r {
        Some((ws, _)) => ws,
        None => Seq::empty(),
    }
}

proof fn lemma_write_at_progress(b: Seq<u8>, pos: int)
    requires
        write_at(b, pos) is Some,
    ensures
        pos < end_of(write_at(b, pos)) <= b.len(),
{
    reveal(write_at);
    reveal(field_at);
    reveal(u32_at);
    assert(u32_at(b, pos) >= 0);
    let p = end_of(field_at(b, pos));
    if b[p] == 1 {
        assert(u32_at(b, p + 1) >= 0);
    }
}

proof fn lemma_writes_at_progress(b: Seq<u8>, pos: int, count: nat)
    requires
        0 <= pos <= b.len(),
        writes_at(b, pos, count) is Some,
    ensures
        pos <= end_of(writes_at(b, pos, count)) <= b.len(),
        items_of(writes_at(b, pos, count)).len() == count,
    decreases count,
{
    if count > 0 {
        lemma_writes_at_progress(b, pos, (count - 1) as nat);
        let p = end_of(writes_at(b, pos, (count - 1) as nat));
        lemma_write_at_progress(b, p);
    }
}

/// A record read at `pos` ends after `pos` and within `b`.
pub proof fn lemma_trie_at_progress(b: Seq<u8>, pos: int)
    requires
        trie_at(b, pos) is Some,
    ensures
        pos < end_of(trie_at(b, pos)) <= b.len(),
{
    reveal(field_at);
    reveal(parent_at);
    reveal(u32_at);
    assert(u32_at(b, pos) >= 0);
    let p = end_of(field_at(b, pos));
    let q = end_of(parent_at(b, p));
    lemma_writes_at_progress(b, q + 4, u32_at(b, q) as nat);
}

/// Records are never empty, so a shorter list of tries has a shorter file.
pub proof fn lemma_records_len(ts: Seq<TrieBytes>, i: int)
    requires
        0 <= i < ts.len(),
    ensures
        records(ts.take(i)).len() < records(ts).len(),
    decreases ts.len(),
{
    let init = ts.drop_last();
    assert(trie_record(ts.last()).len() > 0);
    if i < init.len() {
        lemma_records_len(init, i);
        assert(init.take(i) =~= ts.take(i));
    } else {
        assert(init =~= ts.take(i));
    }
}

/// The records of the first `j` tries start the records of all of them.
pub proof fn lemma_records_prefix(ts: Seq<TrieBytes>, j: int)
    requires
        0 <= j <= ts.len(),
    ensures
        records(ts.take(j)).len() <= records(ts).len(),
        records(ts).subrange(0, records(ts.take(j)).len() as int) == records(ts.take(j)),
    decreases ts.len(),
{
    if j == ts.len() {
        assert(ts.take(j) =~= ts);
        assert(records(ts).subrange(0, records(ts).len() as int) =~= records(ts));
    } else {
        let init = ts.drop_last();
        lemma_records_prefix(init, j);
        assert(init.take(j) =~= ts.take(j));
        let r = records(ts.take(j));
        assert(records(ts).subrange(0, r.len() as int) =~= records(init).subrange(0, r.len() as int));
    }
}

/// Reading the first `k` of the tries that `b` holds succeeds too.
proof fn lemma_parse_take(b: Seq<u8>, v: Seq<TrieBytes>, k: int)
    requires
        records_parse(b, v) is Some,
        0 <= k <= v.len(),
    ensures
        records_parse(b, v.take(k)) is Some,
    decreases v.len(),
{
    if k == v.len() {
        assert(v.take(k) =~= v);
    } else {
        lemma_parse_take(b, v.drop_last(), k);
        assert(v.drop_last().take(k) =~= v.take(k));
    }
}

/// Two lists of tries read from the same bytes agree on their common length,
/// and end their first `k` records at the same position.
proof fn lemma_parse_common(b: Seq<u8>, v1: Seq<TrieBytes>, v2: Seq<TrieBytes>, k: int)
    requires
        records_parse(b, v1) is Some,
        records_parse(b, v2) is Some,
        0 <= k <= v1.len(),
        k <= v2.len(),
    ensures
        v1.take(k) == v2.take(k),
        records_parse(b, v1.take(k)) == records_parse(b, v2.take(k)),
    decreases k,
{
    if k == 0 {
        assert(v1.take(0) =~= v2.take(0));
    } else {
        lemma_parse_common(b, v1, v2, k - 1);
        lemma_parse_take(b, v1, k);
        lemma_parse_take(b, v2, k);
        assert(v1.take(k).drop_last() =~= v1.take(k - 1));
        assert(v2.take(k).drop_last() =~= v2.take(k - 1));
        assert(v1.take(k) =~= v1.take(k - 1).push(v1[k - 1]));
        assert(v2.take(k) =~= v2.take(k - 1).push(v2[k - 1]));
    }
}

/// Reading records is deterministic: two lists of tries that both read to
/// the end of the same bytes are the same list.
pub proof fn lemma_records_parse_unique(b: Seq<u8>, v1: Seq<TrieBytes>, v2: Seq<TrieBytes>)
    requires
        records_parse(b, v1) == Some(b.len() as int),
        records_parse(b, v2) == Some(b.len() as int),
    ensures
        v1 == v2,
{
    lemma_no_longer_list(b, v1, v2);
    lemma_no_longer_list(b, v2, v1);
    lemma_parse_common(b, v1, v2, v1.len() as int);
    assert(v1.take(v1.len() as int) =~= v1);
    assert(v2.take(v2.len() as int) =~= v2);
}

/// A list that reads to the end of `b` is at least as long as any other list
/// read from `b`: no record starts at the end.
proof fn lemma_no_longer_list(b: Seq<u8>, short: Seq<TrieBytes>, long: Seq<TrieBytes>)
    requires
        records_parse(b, short) == Some(b.len() as int),
        records_parse(b, long) is Some,
    ensures
        long.len() <= short.len(),
{
    if short.len() < long.len() {
        let k = short.len() as int;
        lemma_parse_common(b, short, long, k);
        assert(short.take(k) =~= short);
        lemma_parse_take(b, long, k + 1);
        assert(long.take(k + 1).drop_last() =~= long.take(k));
        lemma_trie_at_progress(b, b.len() as int);
    }
}

} // verus!
