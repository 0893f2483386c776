use vstd::prelude::*;
use crate::text::{chars_of, push_char, push_str};

verus! {

/// Hex deserialization error.
#[derive(Copy, Clone, PartialEq, Eq, Debug, Structural)]
pub enum HexError {
    /// The string held an odd number of characters (the payload is its length in bytes).
    BadLength(usize),
    /// A character that is not a hexadecimal digit.
    BadCharacter(char),
}

/// The decimal spelling of `n`.
pub open spec fn decimal(n: nat) -> Seq<char>
    decreases n,
{
    if n < 10 {
        seq![((n + 48) as u8) as char]
    } else {
        decimal(n / 10).push((((n % 10) + 48) as u8) as char)
    }
}

/// Appends the decimal spelling of `n`.
pub fn push_decimal(out: &mut String, n: usize)
    ensures
        final(out)@ == old(out)@ + decimal(n as nat),
    decreases n,
{
    if n >= 10 {
        push_decimal(out, n / 10);
    }
    push_char(out, ((n % 10) as u8 + 48) as char);
    assert(final(out)@ =~= old(out)@ + decimal(n as nat)) by {
        if n >= 10 {
            assert(decimal(n as nat) == decimal((n / 10) as nat).push((((n % 10) + 48) as u8) as char));
        }
    }
}

impl HexError {
    /// The message that describes the error.
    pub fn to_string(&self) -> (r: String)
        ensures
            *self matches HexError::BadLength(n) ==> r@ == "bad length "@ + decimal(n as nat)
                + " for sha256d hex string"@,
            *self matches HexError::BadCharacter(c) ==> r@ == "bad character "@ + seq![c]
                + " in sha256d hex string"@,
    {
        let mut r = String::new();
        match self {
            HexError::BadLength(n) => {
                push_str(&mut r, "bad length ");
                push_decimal(&mut r, *n);
                push_str(&mut r, " for sha256d hex string");
            },
            HexError::BadCharacter(c) => {
                push_str(&mut r, "bad character ");
                push_char(&mut r, *c);
                push_str(&mut r, " in sha256d hex string");
            },
        }
        assert(*self matches HexError::BadCharacter(c) ==> r@ =~= "bad character "@ + seq![c]
            + " in sha256d hex string"@);
        r
    }

    /// A short fixed description of the error kind.
    pub fn description(&self) -> (r: &'static str)
        ensures
            self is BadLength ==> r@ == "sha256d hex string non-64 length"@,
            self is BadCharacter ==> r@ == "sha256d bad hex character"@,
    {
        match self {
            HexError::BadLength(_) => "sha256d hex string non-64 length",
            HexError::BadCharacter(_) => "sha256d bad hex character",
        }
    }
}

// ---------------------------------------------------------------------------
// Mathematical model of hexadecimal text
// ---------------------------------------------------------------------------

/// `c` is a hexadecimal digit, in either case.
pub open spec fn is_hex_digit(c: char) -> bool {
    ('0' <= c && c <= '9') || ('a' <= c && c <= 'f') || ('A' <= c && c <= 'F')
}

/// The value of a hexadecimal digit.
pub open spec fn hex_digit_value(c: char) -> int {
    if '0' <= c && c <= '9' {
        c as int - '0' as int
    } else if 'a' <= c && c <= 'f' {
        c as int - 'a' as int + 10
    } else {
        c as int - 'A' as int + 10
    }
}

/// The lower-case digit character for a value below sixteen.
pub open spec fn hex_char(d: int) -> char {
    if d < 10 {
        ((d + 48) as u8) as char
    } else {
        ((d + 87) as u8) as char
    }
}

/// Number of characters that fall into complete pairs.
pub open spec fn paired_len(s: Seq<char>) -> int {
    s.len() - s.len() % 2
}

/// Every character that belongs to a complete pair is a hex digit.
pub open spec fn pairs_are_hex(s: Seq<char>) -> bool {
    forall|i: int| 0 <= i < paired_len(s) ==> is_hex_digit(#[trigger] s[i])
}

/// `i` is the position of the first non-digit among the paired characters.
pub open spec fn is_first_bad(s: Seq<char>, i: int) -> bool {
    &&& 0 <= i < paired_len(s)
    &&& !is_hex_digit(s[i])
    &&& forall|j: int| 0 <= j < i ==> is_hex_digit(#[trigger] s[j])
}

/// The byte spelled by the two digits at positions `2k` and `2k + 1`.
pub open spec fn pair_value(s: Seq<char>, k: int) -> u8 {
    (16 * hex_digit_value(s[2 * k]) + hex_digit_value(s[2 * k + 1])) as u8
}

/// The bytes spelled by a string of hex digit pairs.
pub open spec fn hex_decode(s: Seq<char>) -> Seq<u8> {
    Seq::new((s.len() / 2) as nat, |k: int| pair_value(s, k))
}

/// The lower-case hex spelling of a byte string, two digits per byte.
pub open spec fn hex_encode(b: Seq<u8>) -> Seq<char> {
    Seq::new(
        2 * b.len(),
        |i: int|
            if i % 2 == 0 {
                hex_char(b[i / 2] as int / 16)
            } else {
                hex_char(b[i / 2] as int % 16)
            },
    )
}

/// The outcome that `hex_bytes` owes on the characters `s`, whose UTF-8 length is `byte_len`.
pub open spec fn hex_bytes_result(s: Seq<char>, byte_len: usize, r: Result<Vec<u8>, HexError>) -> bool {
    match r {
        Ok(v) => s.len() % 2 == 0 && pairs_are_hex(s) && v@ == hex_decode(s),
        Err(HexError::BadCharacter(c)) => exists|i: int| is_first_bad(s, i) && c == s[i],
        Err(HexError::BadLength(n)) => s.len() % 2 == 1 && pairs_are_hex(s) && n == byte_len,
    }
}

// ---------------------------------------------------------------------------
// Pairing iterator
// ---------------------------------------------------------------------------

/// Hands out the items of a sequence two at a time. When a single item is
/// left, asking for the next pair moves it aside, where `remainder` finds it.
pub struct Pair<T> {
    items: Vec<T>,
    pos: usize,
    last_elem: Option<T>,
    handed_out: Ghost<Seq<(T, T)>>,
}

/// The items of a sequence of pairs, in order.
pub open spec fn flatten<T>(ps: Seq<(T, T)>) -> Seq<T>
    decreases ps.len(),
{
    if ps.len() == 0 {
        Seq::empty()
    } else {
        flatten(ps.drop_last()) + seq![ps.last().0, ps.last().1]
    }
}

/// The item moved aside, as a sequence of at most one item.
pub open spec fn opt_seq<T>(o: Option<T>) -> Seq<T> {
    match o {
        Some(x) => seq![x],
        None => Seq::empty(),
    }
}

pub proof fn lemma_flatten_len<T>(ps: Seq<(T, T)>)
    ensures
        flatten(ps).len() == 2 * ps.len(),
    decreases ps.len(),
{
    if ps.len() > 0 {
        lemma_flatten_len(ps.drop_last());
    }
}

impl<T: Copy> Pair<T> {
    /// All the items that pairing began with.
    pub closed spec fn items(&self) -> Seq<T> {
        self.items@
    }

    /// The pairs handed out so far, in order.
    pub closed spec fn pairs(&self) -> Seq<(T, T)> {
        self.handed_out@
    }

    /// The items not yet handed out.
    pub closed spec fn rest(&self) -> Seq<T> {
        self.items@.skip(self.pos as int)
    }

    /// The odd item that was moved aside, if any.
    pub closed spec fn last(&self) -> Option<T> {
        self.last_elem
    }

    pub closed spec fn wf(&self) -> bool {
        &&& self.pos <= self.items@.len()
        &&& flatten(self.handed_out@) + opt_seq(self.last_elem) == self.items@.take(self.pos as int)
        &&& self.last_elem is Some ==> self.pos == self.items@.len()
    }

    /// The next two items, in order.
    pub fn next(&mut self) -> (r: Option<(T, T)>)
        requires
            old(self).wf(),
        ensures
            final(self).wf(),
            final(self).items() == old(self).items(),
            r matches Some(x) ==> final(self).pairs() == old(self).pairs().push(x),
            r is None ==> final(self).pairs() == old(self).pairs(),
            old(self).rest().len() >= 2 ==> r == Some((old(self).rest()[0], old(self).rest()[1]))
                && final(self).rest() == old(self).rest().skip(2) && final(self).last()
                == old(self).last(),
            old(self).rest().len() == 1 ==> r is None && final(self).rest().len() == 0
                && final(self).last() == Some(old(self).rest()[0]),
            old(self).rest().len() == 0 ==> r is None && final(self).rest().len() == 0
                && final(self).last() == old(self).last(),
    {
        if self.pos >= self.items.len() {
            None
        } else if self.items.len() - self.pos < 2 {
            self.last_elem = Some(self.items[self.pos]);
            self.pos = self.pos + 1;
            assert(self.items@.take(self.pos as int) =~= old(self).items@.take(old(self).pos as int)
                + seq![self.items@[old(self).pos as int]]);
            None
        } else {
            let a = self.items[self.pos];
            let b = self.items[self.pos + 1];
            self.pos = self.pos + 2;
            self.handed_out = Ghost(self.handed_out@.push((a, b)));
            assert(self.rest() =~= old(self).rest().skip(2));
            assert(self.handed_out@.drop_last() =~= old(self).handed_out@);
            assert(self.items@.take(self.pos as int) =~= old(self).items@.take(old(self).pos as int)
                + seq![a, b]);
            assert(opt_seq(old(self).last_elem) =~= Seq::<T>::empty());
            assert(flatten(old(self).handed_out@) + Seq::<T>::empty() =~= flatten(old(self).handed_out@));
            assert(flatten(self.handed_out@) + opt_seq(self.last_elem) =~= self.items@.take(self.pos as int));
            Some((a, b))
        }
    }

    /// Bounds on the number of pairs still to come.
    pub fn size_hint(&self) -> (r: (usize, Option<usize>))
        requires
            self.wf(),
        ensures
            r.0 == self.rest().len() / 2,
            r.1 == Some(r.0),
    {
        let n = (self.items.len() - self.pos) / 2;
        (n, Some(n))
    }

    /// The last item, if an odd number of items remained when pairing began
    /// and the pairs have all been taken.
    pub fn remainder(self) -> (r: Option<T>)
        ensures
            r == self.last(),
    {
        self.last_elem
    }
}

/// Pairing loses, repeats and splits nothing: once `next` has returned
/// `None`, the pairs handed out, in order, followed by the item that
/// `remainder` returns, are exactly the items that pairing began with, and
/// there are half as many pairs as items, rounded down.
pub proof fn law_pairing_conserves<T: Copy>(p: Pair<T>)
    requires
        p.wf(),
        p.rest().len() == 0,
    ensures
        flatten(p.pairs()) + opt_seq(p.last()) == p.items(),
        p.pairs().len() == p.items().len() / 2,
{
    assert(p.items@.take(p.pos as int) =~= p.items@);
    lemma_flatten_len(p.pairs());
}

/// Turns a sequence into one that is read two items at a time.
pub trait Pairable: Sized {
    type Item;

    fn pair(self) -> Pair<Self::Item>;
}

impl<T: Copy> Pairable for Vec<T> {
    type Item = T;

    fn pair(self) -> (r: Pair<T>)
        ensures
            r.wf(),
            r.rest() == self@,
            r.items() == self@,
            r.pairs().len() == 0,
            r.last() is None,
    {
        let r = Pair { items: self, pos: 0, last_elem: None, handed_out: Ghost(Seq::empty()) };
        assert(r.rest() =~= self@);
        assert(r.items@.take(0) =~= Seq::<T>::empty());
        assert(flatten(Seq::<(T, T)>::empty()) + opt_seq(None::<T>) =~= Seq::<T>::empty());
        r
    }
}

// ---------------------------------------------------------------------------
// Conversions
// ---------------------------------------------------------------------------

/// The value of a hexadecimal digit, or `None` for any other character.
pub fn hex_digit(c: char) -> (r: Option<u8>)
    ensures
        r is Some <==> is_hex_digit(c),
        r is Some ==> r->0 as int == hex_digit_value(c) && r->0 < 16,
{
    if '0' <= c && c <= '9' {
        Some(((c as u32) - ('0' as u32)) as u8)
    } else if 'a' <= c && c <= 'f' {
        Some(((c as u32) - ('a' as u32) + 10) as u8)
    } else if 'A' <= c && c <= 'F' {
        Some(((c as u32) - ('A' as u32) + 10) as u8)
    } else {
        None
    }
}

/// Converts a hexadecimal string, two digits per byte in either case, to its bytes.
pub fn hex_bytes(s: &str) -> (r: Result<Vec<u8>, HexError>)
    ensures
        hex_bytes_result(s@, s.len(), r),
{
    let chars = chars_of(s);
    let ghost cs = chars@;
    let mut iter = chars.pair();
    let mut v: Vec<u8> = Vec::new();
    loop
        invariant_except_break
            cs.len() - iter.rest().len() == 2 * v@.len(),
            iter.rest() == cs.skip(2 * v@.len() as int),
            iter.last() is None,
        invariant
            iter.wf(),
            cs == s@,
            2 * v@.len() <= cs.len(),
            forall|i: int| 0 <= i < 2 * v@.len() ==> is_hex_digit(#[trigger] cs[i]),
            forall|k: int| 0 <= k < v@.len() ==> #[trigger] v@[k] == pair_value(cs, k),
        ensures
            iter.wf(),
            iter.rest().len() == 0,
            pairs_are_hex(cs),
            v@.len() == cs.len() / 2,
            forall|k: int| 0 <= k < v@.len() ==> #[trigger] v@[k] == pair_value(cs, k),
            iter.last() is Some <==> cs.len() % 2 == 1,
        decreases iter.rest().len(),
    {
        let ghost before = iter.rest();
        match iter.next() {
            None => {
                break;
            },
            Some((f, g)) => {
                let ghost n: int = 2 * v@.len() as int;
                assert(f == cs[n] && g == cs[n + 1]);
                match hex_digit(f) {
                    None => {
                        assert(is_first_bad(cs, n));
                        return Err(HexError::BadCharacter(f));
                    },
                    Some(fd) => match hex_digit(g) {
                        None => {
                            assert(is_first_bad(cs, n + 1));
                            return Err(HexError::BadCharacter(g));
                        },
                        Some(gd) => {
                            v.push(fd * 16 + gd);
                            assert(iter.rest() =~= cs.skip(2 * v@.len() as int));
                        },
                    },
                }
            },
        }
    }
    assert(v@ =~= hex_decode(cs));
    match iter.remainder() {
        Some(_) => Err(HexError::BadLength(s.len())),
        None => Ok(v),
    }
}

/// The lower-case digit character for a value below sixteen.
fn hex_char_of(d: u8) -> (r: char)
    requires
        d < 16,
    ensures
        r == hex_char(d as int),
{
    if d < 10 {
        (d + 48) as char
    } else {
        (d + 87) as char
    }
}

/// Spells a byte string in lower-case hexadecimal, two digits per byte.
pub fn to_hex(s: &[u8]) -> (r: String)
    ensures
        r@ == hex_encode(s@),
{
    let mut r = String::new();
    let mut i: usize = 0;
    while i < s.len()
        invariant
            i <= s@.len(),
            r@ == hex_encode(s@.take(i as int)),
        decreases s@.len() - i,
    {
        let b = s[i];
        push_char(&mut r, hex_char_of(b / 16));
        push_char(&mut r, hex_char_of(b % 16));
        i = i + 1;
        assert(r@ =~= hex_encode(s@.take(i as int)));
    }
    assert(s@.take(i as int) =~= s@);
    r
}

// ---------------------------------------------------------------------------
// Laws
// ---------------------------------------------------------------------------

/// A digit character reads back as the value it spells.
pub proof fn lemma_hex_char(d: int)
    requires
        0 <= d < 16,
    ensures
        is_hex_digit(hex_char(d)),
        hex_digit_value(hex_char(d)) == d,
{
}

/// Spelling bytes in hex and reading the spelling back gives the bytes:
/// `hex_bytes(to_hex(b)) == Ok(b)`.
pub proof fn law_hex_round_trip(b: Seq<u8>)
    ensures
        hex_encode(b).len() % 2 == 0,
        pairs_are_hex(hex_encode(b)),
        hex_decode(hex_encode(b)) == b,
{
    let e = hex_encode(b);
    assert forall|i: int| 0 <= i < paired_len(e) implies is_hex_digit(#[trigger] e[i]) by {
        lemma_hex_char(b[i / 2] as int / 16);
        lemma_hex_char(b[i / 2] as int % 16);
    }
    assert forall|k: int| 0 <= k < b.len() implies #[trigger] pair_value(e, k) == b[k] by {
        assert((2 * k) / 2 == k && (2 * k + 1) / 2 == k);
        assert((2 * k) % 2 == 0 && (2 * k + 1) % 2 == 1);
        lemma_hex_char(b[k] as int / 16);
        lemma_hex_char(b[k] as int % 16);
    }
    assert(hex_decode(e) =~= b);
}

} // verus!
