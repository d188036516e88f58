use vstd::prelude::*;

use crate::error::KnnError;
use crate::observation::Observation;

verus! {

/// `c` is an ASCII decimal digit.
pub open spec fn is_digit(c: char) -> bool {
    '0' <= c && c <= '9'
}

/// Every character of `s` is an ASCII decimal digit.
pub open spec fn all_digits(s: Seq<char>) -> bool {
    forall|i: int| 0 <= i < s.len() ==> is_digit(#[trigger] s[i])
}

/// The number that the decimal digits `s` denote.
pub open spec fn digits_value(s: Seq<char>) -> int
    decreases s.len(),
{
    if s.len() == 0 {
        0
    } else {
        digits_value(s.drop_last()) * 10 + (s.last() as int - '0' as int)
    }
}

/// The integer that a field denotes: an optional `+` or `-` followed by one or
/// more decimal digits.
pub open spec fn field_value(s: Seq<char>) -> Option<int> {
    if s.len() > 0 && (s[0] == '-' || s[0] == '+') {
        let d = s.drop_first();
        if d.len() > 0 && all_digits(d) {
            Some(
                if s[0] == '-' {
                    -digits_value(d)
                } else {
                    digits_value(d)
                },
            )
        } else {
            None
        }
    } else if s.len() > 0 && all_digits(s) {
        Some(digits_value(s))
    } else {
        None
    }
}

/// The feature a field holds, where it denotes an integer that fits in `i32`.
pub open spec fn parse_feature(s: Seq<char>) -> Option<i32> {
    match field_value(s) {
        Some(v) => if i32::MIN <= v <= i32::MAX {
            Some(v as i32)
        } else {
            None
        },
        None => None,
    }
}

/// A prefix of a digit string denotes no more than the whole.
proof fn lemma_digits_prefix(s: Seq<char>, k: int)
    requires
        all_digits(s),
        0 <= k <= s.len(),
    ensures
        0 <= digits_value(s.take(k)) <= digits_value(s),
    decreases s.len(),
{
    if s.len() > 0 {
        let t = s.drop_last();
        assert(all_digits(t)) by {
            assert forall|i: int| 0 <= i < t.len() implies is_digit(#[trigger] t[i]) by {
                assert(is_digit(s[i]));
            }
        }
        assert(is_digit(s[s.len() - 1]));
        if k == s.len() {
            assert(s.take(k) =~= s);
            lemma_digits_prefix(t, t.len() as int);
            assert(t.take(t.len() as int) =~= t);
        } else {
            lemma_digits_prefix(t, k);
            assert(t.take(k) =~= s.take(k));
            lemma_digits_prefix(t, t.len() as int);
            assert(t.take(t.len() as int) =~= t);
        }
    }
}

/// Parses `cs[start..end]` as a feature.
fn parse_field(cs: &Vec<char>, start: usize, end: usize) -> (r: Option<i32>)
    requires
        start <= end <= cs@.len(),
    ensures
        r == parse_feature(cs@.subrange(start as int, end as int)),
{
    let ghost s = cs@.subrange(start as int, end as int);
    if start == end {
        return None;
    }
    let negative = cs[start] == '-';
    let first: usize = if cs[start] == '-' || cs[start] == '+' {
        start + 1
    } else {
        start
    };
    let ghost d = cs@.subrange(first as int, end as int);
    proof {
        if first == start + 1 {
            assert(d =~= s.drop_first());
        } else {
            assert(d =~= s);
        }
    }
    if first == end {
        return None;
    }
    let mut mag: i64 = 0;
    let mut i: usize = first;
    while i < end
        invariant
            first == start + 1 || first == start,
            start < end,
            first < end,
            end <= cs@.len(),
            s == cs@.subrange(start as int, end as int),
            s.len() > 0,
            negative == (s[0] == '-'),
            first == start + 1 ==> d == s.drop_first() && (s[0] == '-' || s[0] == '+'),
            first == start ==> d == s && !(s[0] == '-' || s[0] == '+'),
            d == cs@.subrange(first as int, end as int),
            first <= i <= end,
            all_digits(d.take(i - first)),
            mag as int == digits_value(d.take(i - first)),
            0 <= mag <= 0x8000_0000,
        decreases end - i,
    {
        let c = cs[i];
        if !('0' <= c && c <= '9') {
            assert(!all_digits(d)) by {
                assert(d[i - first] == c);
                assert(!is_digit(d[i - first]));
            }
            proof {
                if first == start {
                    assert(d == s);
                    assert(!all_digits(s));
                } else {
                    assert(d == s.drop_first());
                }
            }
            assert(field_value(s) is None);
            return None;
        }
        let ghost k = i - first;
        assert(d.take(k + 1).drop_last() =~= d.take(k));
        assert(all_digits(d.take(k + 1))) by {
            assert forall|j: int| 0 <= j < k + 1 implies is_digit(#[trigger] d.take(k + 1)[j]) by {
                if j < k {
                    assert(d.take(k + 1)[j] == d.take(k)[j]);
                }
            }
        }
        let digit: i64 = (c as u32 - '0' as u32) as i64;
        mag = mag * 10 + digit;
        i = i + 1;
        if mag > 0x8000_0000 {
            proof {
                if all_digits(d) {
                    lemma_digits_prefix(d, i - first);
                    assert(digits_value(d) > 0x8000_0000);
                }
                assert(parse_feature(s) is None);
            }
            return None;
        }
    }
    assert(d.take(i - first) =~= d);
    if negative {
        Some((-mag) as i32)
    } else if mag > 0x7FFF_FFFF {
        None
    } else {
        Some(mag as i32)
    }
}

/// The characters of `s`, in order.
fn chars_of(s: &str) -> (r: Vec<char>)
    ensures
        r@ == s@,
{
    let mut r: Vec<char> = Vec::new();
    for c in it: s.chars()
        invariant
            r@ == it.seq().take(it.index() as int),
    {
        r.push(c);
    }
    r
}

/// The comma-separated fields of a line; a line without commas is one field.
pub open spec fn split_fields(s: Seq<char>) -> Seq<Seq<char>>
    decreases s.len(),
{
    if s.len() == 0 {
        seq![Seq::empty()]
    } else {
        let f = split_fields(s.drop_last());
        if s.last() == ',' {
            f.push(Seq::empty())
        } else {
            f.update(f.len() - 1, f.last().push(s.last()))
        }
    }
}

/// Some field after the first of `f` is not a feature.
pub open spec fn has_malformed_feature(f: Seq<Seq<char>>) -> bool {
    exists|k: int| 1 <= k < f.len() && (#[trigger] parse_feature(f[k])) is None
}

/// What a record line gives: an error where a feature field is malformed,
/// else the first field as the label and the features of the other fields.
pub open spec fn record_spec(s: Seq<char>) -> Result<(Seq<char>, Seq<i32>), KnnError> {
    let f = split_fields(s);
    if has_malformed_feature(f) {
        Err(KnnError::MalformedRecord)
    } else {
        Ok((f[0], Seq::new((f.len() - 1) as nat, |k: int| parse_feature(f[k + 1])->Some_0)))
    }
}

/// A completed field (one followed by a comma) that is a malformed feature
/// stays in the fields as the line goes on.
proof fn lemma_malformed_persists(s: Seq<char>, i: int, k: int)
    requires
        0 <= i <= s.len(),
        1 <= k < split_fields(s.take(i)).len() - 1,
        parse_feature(split_fields(s.take(i))[k]) is None,
    ensures
        has_malformed_feature(split_fields(s)),
    decreases s.len() - i,
{
    if i < s.len() {
        let f = split_fields(s.take(i));
        let g = split_fields(s.take(i + 1));
        assert(s.take(i + 1).drop_last() =~= s.take(i));
        assert(g[k] == f[k]);
        lemma_malformed_persists(s, i + 1, k);
    } else {
        assert(s.take(i) =~= s);
    }
}

proof fn lemma_split_fields_len(s: Seq<char>)
    ensures
        1 <= split_fields(s).len() <= s.len() + 1,
    decreases s.len(),
{
    if s.len() > 0 {
        lemma_split_fields_len(s.drop_last());
    }
}

/// Builds an observation from a record line `label,feature,...,feature`; the
/// label is taken as it stands, and every feature must be an integer that
/// fits in `i32`.
pub fn create_observation(entry: String) -> (r: Result<Observation, KnnError>)
    ensures
        r matches Ok(o) ==> record_spec(entry@) == Ok::<(Seq<char>, Seq<i32>), KnnError>(
            (o.label@, o.pixels@),
        ),
        r matches Err(e) ==> record_spec(entry@) == Err::<(Seq<char>, Seq<i32>), KnnError>(e),
{
    let cs = chars_of(entry.as_str());
    let n = cs.len();
    let mut label = String::new();
    let mut have_label = false;
    let mut pixels: Vec<i32> = Vec::new();
    let mut start: usize = 0;
    let mut i: usize = 0;
    proof {
        assert(cs@.take(0) =~= Seq::<char>::empty());
        assert(cs@.subrange(0, 0) =~= Seq::<char>::empty());
    }
    while i < n
        invariant
            n == cs@.len(),
            cs@ == entry@,
            start <= i <= n,
            split_fields(cs@.take(i as int)).len() == if have_label {
                pixels@.len() + 2
            } else {
                1
            },
            split_fields(cs@.take(i as int)).last() == cs@.subrange(start as int, i as int),
            have_label ==> label@ == split_fields(cs@.take(i as int))[0],
            !have_label ==> pixels@.len() == 0 && start == 0,
            forall|k: int|
                0 <= k < pixels@.len() ==> parse_feature(
                    #[trigger] split_fields(cs@.take(i as int))[k + 1],
                ) == Some(pixels@[k]),
        decreases n - i,
    {
        let ghost f = split_fields(cs@.take(i as int));
        let ghost g = split_fields(cs@.take(i + 1));
        proof {
            assert(cs@.take(i + 1).drop_last() =~= cs@.take(i as int));
            lemma_split_fields_len(cs@.take(i as int));
            if cs@[i as int] == ',' {
                assert(g == f.push(Seq::empty()));
            } else {
                assert(g == f.update(f.len() - 1, f.last().push(cs@[i as int])));
            }
        }
        if cs[i] == ',' {
            if have_label {
                match parse_field(&cs, start, i) {
                    Some(v) => {
                        assert(g[f.len() - 1] == cs@.subrange(start as int, i as int));
                        pixels.push(v);
                    },
                    None => {
                        proof {
                            assert(g[f.len() - 1] == f.last());
                            assert(parse_feature(g[f.len() - 1]) is None);
                            lemma_malformed_persists(cs@, i + 1, f.len() - 1);
                        }
                        return Err(KnnError::MalformedRecord);
                    },
                }
            } else {
                label = entry.as_str().substring_char(start, i).to_owned();
                have_label = true;
            }
            start = i + 1;
            assert(cs@.subrange(start as int, start as int) =~= Seq::<char>::empty());
            assert(forall|k: int| 0 <= k < f.len() ==> g[k] == f[k]);
        } else {
            assert(cs@.subrange(start as int, i + 1) =~= cs@.subrange(start as int, i as int).push(
                cs@[i as int],
            ));
            assert(forall|k: int| 0 <= k < f.len() - 1 ==> g[k] == f[k]);
        }
        i = i + 1;
    }
    assert(cs@.take(n as int) =~= cs@);
    let ghost f = split_fields(cs@);
    if have_label {
        match parse_field(&cs, start, n) {
            Some(v) => {
                assert(f[f.len() - 1] == cs@.subrange(start as int, n as int));
                pixels.push(v);
            },
            None => {
                assert(parse_feature(f[f.len() - 1]) is None);
                return Err(KnnError::MalformedRecord);
            },
        }
    } else {
        assert(cs@.subrange(0, n as int) =~= cs@);
        label = entry;
    }
    proof {
        assert(!has_malformed_feature(f)) by {
            assert forall|k: int| 1 <= k < f.len() implies !(#[trigger] parse_feature(f[k])
                is None) by {
                assert(parse_feature(f[(k - 1) + 1]) == Some(pixels@[k - 1]));
            }
        }
        assert(pixels@ =~= Seq::new((f.len() - 1) as nat, |k: int| parse_feature(f[k + 1])->Some_0));
    }
    Ok(Observation { label, pixels })
}

/// The number of records among `n` lines, the first of which is a header.
pub open spec fn record_count(n: int) -> int {
    if n == 0 {
        0
    } else {
        n - 1
    }
}

/// Builds the observations of the record lines that follow a header line.
/// The first malformed record makes the whole load fail.
pub fn read_observations(lines: &Vec<String>) -> (r: Result<Vec<Observation>, KnnError>)
    ensures
        r is Err <==> exists|k: int| 1 <= k < lines@.len() && (#[trigger] record_spec(lines@[k]@)) is Err,
        r is Err ==> r == Err::<Vec<Observation>, KnnError>(KnnError::MalformedRecord),
        r matches Ok(v) ==> {
            &&& v@.len() == record_count(lines@.len() as int)
            &&& forall|k: int|
                0 <= k < v@.len() ==> record_spec(lines@[k + 1]@) == Ok::<
                    (Seq<char>, Seq<i32>),
                    KnnError,
                >(((#[trigger] v@[k]).label@, v@[k].pixels@))
        },
{
    let n = lines.len();
    let mut v: Vec<Observation> = Vec::new();
    if n == 0 {
        return Ok(v);
    }
    let mut i: usize = 1;
    while i < n
        invariant
            n == lines@.len(),
            1 <= i <= n,
            v@.len() == i - 1,
            forall|k: int|
                0 <= k < v@.len() ==> record_spec(lines@[k + 1]@) == Ok::<
                    (Seq<char>, Seq<i32>),
                    KnnError,
                >(((#[trigger] v@[k]).label@, v@[k].pixels@)),
        decreases n - i,
    {
        match create_observation(lines[i].clone()) {
            Ok(o) => v.push(o),
            Err(e) => {
                assert(record_spec(lines@[i as int]@) is Err);
                return Err(e);
            },
        }
        i = i + 1;
    }
    assert forall|k: int| 1 <= k < lines@.len() implies !(#[trigger] record_spec(lines@[k]@) is Err) by {
        let j = k - 1;
        assert(record_spec(lines@[j + 1]@) == Ok::<(Seq<char>, Seq<i32>), KnnError>(
            (v@[j].label@, v@[j].pixels@),
        ));
    }
    Ok(v)
}

} // verus!
