use crate::graph::NodeData;
use vstd::prelude::*;
use vstd::utf8::encode_utf8;

verus! {

/// `[` or `]`.
pub open spec fn is_bracket(c: u8) -> bool {
    c == 0x5b || c == 0x5d
}

/// The bytes with the leading brackets taken off.
pub open spec fn trim_front(b: Seq<u8>) -> Seq<u8>
    decreases b.len(),
{
    if b.len() > 0 && is_bracket(b[0]) {
        trim_front(b.drop_first())
    } else {
        b
    }
}

/// The bytes with the trailing brackets taken off.
pub open spec fn trim_back(b: Seq<u8>) -> Seq<u8>
    decreases b.len(),
{
    if b.len() > 0 && is_bracket(b.last()) {
        trim_back(b.drop_last())
    } else {
        b
    }
}

/// The pieces between commas; text without a comma is one piece.
pub open spec fn fields(b: Seq<u8>) -> Seq<Seq<u8>>
    decreases b.len(),
{
    if b.len() == 0 {
        seq![Seq::empty()]
    } else {
        let f = fields(b.drop_last());
        if b.last() == 0x2c {
            f.push(Seq::empty())
        } else {
            f.update(f.len() - 1, f.last().push(b.last()))
        }
    }
}

/// An ASCII decimal digit.
pub open spec fn is_digit(c: u8) -> bool {
    0x30 <= c <= 0x39
}

/// The number that a run of decimal digits spells.
pub open spec fn digits_value(d: Seq<u8>) -> nat
    decreases d.len(),
{
    if d.len() == 0 {
        0
    } else {
        digits_value(d.drop_last()) * 10 + (d.last() - 0x30) as nat
    }
}

/// The text after a leading `+`, if there is one.
pub open spec fn unsigned_part(s: Seq<u8>) -> Seq<u8> {
    if s.len() > 0 && s[0] == 0x2b {
        s.drop_first()
    } else {
        s
    }
}

/// Every byte is a decimal digit.
pub open spec fn all_digits(d: Seq<u8>) -> bool {
    forall|i: int| 0 <= i < d.len() ==> is_digit(#[trigger] d[i])
}

/// A byte as a decimal number is read: an optional `+`, then at least one
/// digit, worth at most 255.
pub open spec fn parse_byte(s: Seq<u8>) -> Option<u8> {
    let d = unsigned_part(s);
    if d.len() > 0 && all_digits(d) && digits_value(d) <= 255 {
        Some(digits_value(d) as u8)
    } else {
        None
    }
}

/// The pieces that read as bytes, read, in order; the others are dropped.
pub open spec fn read_fields(fs: Seq<Seq<u8>>) -> Seq<u8>
    decreases fs.len(),
{
    if fs.len() == 0 {
        Seq::empty()
    } else {
        let r = read_fields(fs.drop_last());
        match parse_byte(fs.last()) {
            Some(x) => r.push(x),
            None => r,
        }
    }
}

/// The feature vector that a text such as `[0,1,0]` holds: brackets at
/// either end are taken off, the rest is cut at commas, and each piece
/// that reads as a byte gives one entry.
pub open spec fn feature_list(b: Seq<u8>) -> Seq<u8> {
    read_fields(fields(trim_back(trim_front(b))))
}

proof fn lemma_digits_value_grows(d: Seq<u8>, k: int)
    requires
        0 <= k <= d.len(),
        forall|i: int| 0 <= i < d.len() ==> is_digit(#[trigger] d[i]),
    ensures
        digits_value(d.subrange(0, k)) <= digits_value(d),
    decreases d.len() - k,
{
    if k < d.len() {
        lemma_digits_value_grows(d, k + 1);
        let p = d.subrange(0, k + 1);
        assert(p.drop_last() == d.subrange(0, k));
    } else {
        assert(d.subrange(0, k) == d);
    }
}

/// Reads `b[start..end]` as a byte.
fn parse_field(b: &[u8], start: usize, end: usize) -> (r: Option<u8>)
    requires
        start <= end <= b@.len(),
    ensures
        r == parse_byte(b@.subrange(start as int, end as int)),
{
    let ghost s = b@.subrange(start as int, end as int);
    let mut i = start;
    if i < end && b[i] == 0x2b {
        i = i + 1;
    }
    let ghost d = unsigned_part(s);
    proof {
        assert(d == b@.subrange(i as int, end as int));
    }
    if i == end {
        return None;
    }
    let digits_start = i;
    let mut value: u32 = 0;
    while i < end
        invariant
            start <= digits_start <= i <= end <= b@.len(),
            s == b@.subrange(start as int, end as int),
            d == unsigned_part(s),
            d == b@.subrange(digits_start as int, end as int),
            d.len() > 0,
            forall|j: int| digits_start <= j < i ==> is_digit(#[trigger] b@[j]),
            value == digits_value(b@.subrange(digits_start as int, i as int)),
            value <= 255,
        decreases end - i,
    {
        let c = b[i];
        if c < 0x30 || c > 0x39 {
            proof {
                assert(d[i - digits_start] == c);
                assert(!is_digit(d[i - digits_start]));
                assert(!all_digits(d));
                assert(parse_byte(s) is None);
            }
            return None;
        }
        proof {
            let p = b@.subrange(digits_start as int, i + 1);
            assert(p.drop_last() == b@.subrange(digits_start as int, i as int));
        }
        value = value * 10 + (c - 0x30) as u32;
        i = i + 1;
        if value > 255 {
            proof {
                if all_digits(d) {
                    lemma_digits_value_grows(d, i - digits_start);
                    assert(d.subrange(0, i - digits_start) == b@.subrange(digits_start as int, i as int));
                    assert(digits_value(d) > 255);
                }
                assert(parse_byte(s) is None);
            }
            return None;
        }
    }
    proof {
        assert(b@.subrange(digits_start as int, i as int) == d);
        assert forall|j: int| 0 <= j < d.len() implies is_digit(#[trigger] d[j]) by {
            assert(d[j] == b@[digits_start + j]);
        }
        assert(all_digits(d));
    }
    Some(value as u8)
}

/// The feature vector that the text `b` holds, as `feature_list` reads it.
pub fn parse_features(b: &[u8]) -> (r: Vec<u8>)
    ensures
        r@ == feature_list(b@),
{
    let len = b.len();
    let mut lo: usize = 0;
    proof {
        assert(b@.subrange(0, len as int) == b@);
    }
    while lo < len && (b[lo] == 0x5b || b[lo] == 0x5d)
        invariant
            lo <= len == b@.len(),
            trim_front(b@) == trim_front(b@.subrange(lo as int, len as int)),
        decreases len - lo,
    {
        proof {
            assert(b@.subrange(lo as int, len as int).drop_first() == b@.subrange(lo + 1, len as int));
        }
        lo = lo + 1;
    }
    let mut hi: usize = len;
    let ghost front = b@.subrange(lo as int, len as int);
    proof {
        assert(trim_front(front) == front);
    }
    while hi > lo && (b[hi - 1] == 0x5b || b[hi - 1] == 0x5d)
        invariant
            lo <= hi <= len == b@.len(),
            front == b@.subrange(lo as int, len as int),
            trim_back(front) == trim_back(b@.subrange(lo as int, hi as int)),
        decreases hi,
    {
        proof {
            assert(b@.subrange(lo as int, hi as int).drop_last() == b@.subrange(lo as int, hi - 1));
        }
        hi = hi - 1;
    }
    let ghost u = b@.subrange(lo as int, hi as int);
    proof {
        assert(trim_back(u) == u);
        assert(trim_back(trim_front(b@)) == u);
        assert(b@.subrange(lo as int, lo as int) == Seq::<u8>::empty());
        assert(fields(Seq::<u8>::empty()) == seq![Seq::<u8>::empty()]);
        assert(seq![Seq::<u8>::empty()].drop_last() == Seq::<Seq<u8>>::empty());
    }
    let mut out: Vec<u8> = Vec::new();
    let mut start: usize = lo;
    let mut j: usize = lo;
    while j < hi
        invariant
            lo <= start <= j <= hi <= b@.len(),
            u == b@.subrange(lo as int, hi as int),
            fields(b@.subrange(lo as int, j as int)).len() >= 1,
            fields(b@.subrange(lo as int, j as int)).last() == b@.subrange(start as int, j as int),
            out@ == read_fields(fields(b@.subrange(lo as int, j as int)).drop_last()),
        decreases hi - j,
    {
        let ghost f = fields(b@.subrange(lo as int, j as int));
        let ghost p = b@.subrange(lo as int, j + 1);
        proof {
            assert(p.drop_last() == b@.subrange(lo as int, j as int));
            assert(p.last() == b@[j as int]);
        }
        if b[j] == 0x2c {
            let x = parse_field(b, start, j);
            proof {
                assert(fields(p) == f.push(Seq::empty()));
                assert(fields(p).drop_last() == f);
                assert(f == f.drop_last().push(f.last()));
                assert(read_fields(f) == match parse_byte(f.last()) {
                    Some(y) => read_fields(f.drop_last()).push(y),
                    None => read_fields(f.drop_last()),
                });
                assert(b@.subrange(j + 1, j + 1) == Seq::<u8>::empty());
            }
            match x {
                Some(v) => {
                    out.push(v);
                },
                None => {},
            }
            start = j + 1;
        } else {
            proof {
                assert(fields(p) == f.update(f.len() - 1, f.last().push(b@[j as int])));
                assert(fields(p).drop_last() == f.drop_last());
                assert(b@.subrange(start as int, j + 1) == b@.subrange(start as int, j as int).push(
                    b@[j as int],
                ));
            }
        }
        j = j + 1;
    }
    let x = parse_field(b, start, hi);
    proof {
        let f = fields(u);
        assert(b@.subrange(lo as int, j as int) == u);
        assert(f == f.drop_last().push(f.last()));
    }
    match x {
        Some(v) => {
            out.push(v);
        },
        None => {},
    }
    out
}

impl NodeData {
    /// The record of a paper from the fields of its line: the label is the
    /// third field, the subject the fourth, and the feature vector is read
    /// from the fifth by `feature_list`.
    pub fn read_strings(line: &Vec<String>, mapped_node: usize) -> (r: NodeData)
        requires
            line@.len() >= 5,
        ensures
            r.mapped_node == mapped_node,
            r.label@ == line@[2]@,
            r.subject@ == line@[3]@,
            r.features@ == feature_list(encode_utf8(line@[4]@)),
    {
        let label = line[2].clone();
        let subject = line[3].clone();
        let features = parse_features(line[4].as_str().as_bytes());
        NodeData { mapped_node, label, subject, features }
    }
}

} // verus!
