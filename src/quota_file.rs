//! The text form of a quota record: its seven counts in decimal, separated
//! by commas (days to go, new and review targets, the targets first planned,
//! new and review practiced).
use vstd::prelude::*;

use crate::quotas::QuotaRecord;

verus! {

/// The decimal digits of `n`, most significant first, as ASCII bytes.
pub open spec fn digits(n: nat) -> Seq<u8>
    decreases n,
{
    if n < 10 {
        seq![(48 + n) as u8]
    } else {
        digits(n / 10).push((48 + n % 10) as u8)
    }
}

pub open spec fn is_digit(b: u8) -> bool {
    48 <= b <= 57
}

/// A non-empty run of decimal digits.
pub open spec fn all_digits(s: Seq<u8>) -> bool {
    s.len() > 0 && forall|i: int| 0 <= i < s.len() ==> is_digit(#[trigger] s[i])
}

/// The number a run of decimal digits stands for.
pub open spec fn digits_value(s: Seq<u8>) -> int
    decreases s.len(),
{
    if s.len() == 0 {
        0
    } else {
        digits_value(s.drop_last()) * 10 + (s.last() - 48)
    }
}

/// The counts of a record, in the order of its text form.
pub open spec fn record_fields(r: QuotaRecord) -> Seq<nat> {
    seq![
        r.days_to_go as nat,
        r.new_assigned as nat,
        r.review_assigned as nat,
        r.new_quota_initial as nat,
        r.review_quota_initial as nat,
        r.new_practiced as nat,
        r.review_practiced as nat,
    ]
}

/// Numbers in decimal, separated by commas.
pub open spec fn join_fields(f: Seq<nat>) -> Seq<u8>
    decreases f.len(),
{
    if f.len() == 0 {
        Seq::empty()
    } else if f.len() == 1 {
        digits(f[0])
    } else {
        digits(f[0]) + seq![44u8] + join_fields(f.drop_first())
    }
}

/// The text form of a record.
pub open spec fn quota_line(r: QuotaRecord) -> Seq<u8> {
    join_fields(record_fields(r))
}

/// Where the field starting at `i` ends: the next comma, or the end.
pub open spec fn field_end(s: Seq<u8>, i: int) -> int
    decreases s.len() - i,
{
    if i < 0 {
        0
    } else if i >= s.len() || s[i] == 44 {
        i
    } else {
        field_end(s, i + 1)
    }
}

/// The values of `k` comma-separated runs of digits from `i` to the end of
/// `s`, or `None` where `s` is not of that form.
pub open spec fn parse_fields(s: Seq<u8>, i: int, k: int) -> Option<Seq<int>>
    decreases k,
{
    if k <= 0 || i < 0 || i > s.len() {
        None
    } else {
        let e = field_end(s, i);
        let f = s.subrange(i, e);
        if !all_digits(f) {
            None
        } else if k == 1 {
            if e == s.len() {
                Some(seq![digits_value(f)])
            } else {
                None
            }
        } else if e < s.len() {
            match parse_fields(s, e + 1, k - 1) {
                Some(rest) => Some(seq![digits_value(f)] + rest),
                None => None,
            }
        } else {
            None
        }
    }
}

/// The record a line stands for: seven runs of digits separated by commas,
/// each at most `u32::MAX`; else `None`.
pub open spec fn parse_line(s: Seq<u8>) -> Option<QuotaRecord> {
    match parse_fields(s, 0, 7) {
        Some(v) => if forall|j: int| 0 <= j < 7 ==> #[trigger] v[j] <= u32::MAX {
            Some(
                QuotaRecord {
                    days_to_go: v[0] as u32,
                    new_assigned: v[1] as u32,
                    review_assigned: v[2] as u32,
                    new_quota_initial: v[3] as u32,
                    review_quota_initial: v[4] as u32,
                    new_practiced: v[5] as u32,
                    review_practiced: v[6] as u32,
                },
            )
        } else {
            None
        },
        None => None,
    }
}

proof fn lemma_digits(n: nat)
    ensures
        all_digits(digits(n)),
        digits_value(digits(n)) == n,
    decreases n,
{
    if n >= 10 {
        lemma_digits(n / 10);
        let d = digits(n / 10);
        assert(digits(n).drop_last() =~= d);
        assert forall|i: int| 0 <= i < digits(n).len() implies is_digit(#[trigger] digits(n)[i]) by {
            if i < d.len() {
                assert(digits(n)[i] == d[i]);
            }
        }
        assert((n / 10) * 10 + n % 10 == n);
        assert(digits(n).last() == (48 + n % 10) as u8);
        assert(((48 + n % 10) as u8) - 48 == n % 10);
        assert(digits_value(digits(n)) == digits_value(d) * 10 + (digits(n).last() - 48));
    } else {
        assert(digits(n).drop_last() =~= Seq::<u8>::empty());
        assert(digits_value(Seq::<u8>::empty()) == 0);
        assert(digits(n).last() == (48 + n) as u8);
        assert(digits_value(digits(n)) == digits_value(digits(n).drop_last()) * 10 + (digits(n).last()
            - 48));
    }
}

proof fn lemma_field_end(s: Seq<u8>, i: int, e: int)
    requires
        0 <= i <= e <= s.len(),
        forall|j: int| i <= j < e ==> #[trigger] s[j] != 44,
        e == s.len() || s[e] == 44,
    ensures
        field_end(s, i) == e,
    decreases e - i,
{
    if i < e {
        lemma_field_end(s, i + 1, e);
    }
}

/// Reading a line back gives the numbers it was written from.
proof fn lemma_parse_join(s: Seq<u8>, i: int, f: Seq<nat>)
    requires
        0 <= i <= s.len(),
        f.len() >= 1,
        s.subrange(i, s.len() as int) == join_fields(f),
    ensures
        parse_fields(s, i, f.len() as int) == Some(Seq::new(f.len(), |j: int| f[j] as int)),
    decreases f.len(),
{
    let d = digits(f[0]);
    lemma_digits(f[0]);
    let e = i + d.len();
    if f.len() == 1 {
        assert(s.subrange(i, s.len() as int) == d);
        assert(e == s.len());
    } else {
        assert(join_fields(f) == d + seq![44u8] + join_fields(f.drop_first()));
        assert(s.subrange(i, s.len() as int).len() == d.len() + 1 + join_fields(f.drop_first()).len());
    }
    assert forall|j: int| i <= j < e implies #[trigger] s[j] != 44 by {
        assert(s[j] == s.subrange(i, s.len() as int)[j - i]);
        assert(s.subrange(i, s.len() as int)[j - i] == d[j - i]);
        assert(is_digit(d[j - i]));
    }
    if f.len() > 1 {
        assert(s[e] == s.subrange(i, s.len() as int)[e - i]);
    }
    lemma_field_end(s, i, e);
    assert(s.subrange(i, e) =~= d) by {
        assert forall|j: int| 0 <= j < d.len() implies s.subrange(i, e)[j] == d[j] by {
            assert(s.subrange(i, s.len() as int)[j] == d[j]);
        }
    }
    if f.len() > 1 {
        let rest = f.drop_first();
        assert(s.subrange(e + 1, s.len() as int) =~= join_fields(rest)) by {
            assert forall|j: int| 0 <= j < join_fields(rest).len() implies s.subrange(
                e + 1,
                s.len() as int,
            )[j] == join_fields(rest)[j] by {
                assert(s.subrange(i, s.len() as int)[d.len() + 1 + j] == join_fields(rest)[j]);
            }
        }
        lemma_parse_join(s, e + 1, rest);
        assert(Seq::new(f.len(), |j: int| f[j] as int) =~= seq![f[0] as int] + Seq::new(
            rest.len(),
            |j: int| rest[j] as int,
        ));
    } else {
        assert(Seq::new(f.len(), |j: int| f[j] as int) =~= seq![f[0] as int]);
    }
}

/// A record written out and read back is the same record.
pub proof fn lemma_quota_line_round_trip(r: QuotaRecord)
    ensures
        parse_line(quota_line(r)) == Some(r),
{
    let s = quota_line(r);
    assert(s.subrange(0, s.len() as int) =~= s);
    lemma_parse_join(s, 0, record_fields(r));
    let v = Seq::new(7, |j: int| record_fields(r)[j] as int);
    assert(parse_fields(s, 0, 7) == Some(v));
    assert(forall|j: int| 0 <= j < 7 ==> #[trigger] v[j] <= u32::MAX);
}

/// Appends the decimal digits of `n`.
fn push_digits(out: &mut Vec<u8>, n: u32)
    ensures
        final(out)@ == old(out)@ + digits(n as nat),
    decreases n,
{
    if n >= 10 {
        push_digits(out, n / 10);
    }
    out.push((48 + n % 10) as u8);
    proof {
        if n >= 10 {
            assert(digits(n as nat) == digits((n / 10) as nat).push((48 + n % 10) as u8));
        }
    }
    assert(out@ =~= old(out)@ + digits(n as nat));
}

proof fn lemma_join_push(f: Seq<nat>, x: nat)
    requires
        f.len() >= 1,
    ensures
        join_fields(f.push(x)) == join_fields(f) + seq![44u8] + digits(x),
    decreases f.len(),
{
    assert(f.push(x).drop_first() =~= f.drop_first().push(x));
    if f.len() == 1 {
        assert(f.drop_first().push(x) =~= seq![x]);
        assert(join_fields(seq![x]) == digits(x));
    } else {
        lemma_join_push(f.drop_first(), x);
    }
}

/// Writes a record in its text form.
pub fn format_quota_line(r: &QuotaRecord) -> (line: Vec<u8>)
    ensures
        line@ == quota_line(*r),
{
    let fields: Vec<u32> = vec![
        r.days_to_go,
        r.new_assigned,
        r.review_assigned,
        r.new_quota_initial,
        r.review_quota_initial,
        r.new_practiced,
        r.review_practiced,
    ];
    let ghost f = record_fields(*r);
    assert(forall|j: int| 0 <= j < 7 ==> #[trigger] fields@[j] as nat == f[j]);
    let mut line: Vec<u8> = Vec::new();
    push_digits(&mut line, fields[0]);
    proof {
        assert(f.take(1) =~= seq![f[0]]);
        assert(join_fields(seq![f[0]]) == digits(f[0]));
    }
    let mut k: usize = 1;
    while k < 7
        invariant
            1 <= k <= 7,
            fields@.len() == 7,
            f.len() == 7,
            forall|j: int| 0 <= j < 7 ==> #[trigger] fields@[j] as nat == f[j],
            line@ == join_fields(f.take(k as int)),
        decreases 7 - k,
    {
        line.push(44);
        push_digits(&mut line, fields[k]);
        proof {
            lemma_join_push(f.take(k as int), f[k as int]);
            assert(f.take(k as int).push(f[k as int]) =~= f.take(k + 1));
        }
        k = k + 1;
    }
    assert(f.take(7) =~= f);
    line
}

/// `a` in front of the values `o`, if any.
pub open spec fn prepend(a: Seq<int>, o: Option<Seq<int>>) -> Option<Seq<int>> {
    match o {
        Some(x) => Some(a + x),
        None => None,
    }
}

/// `x`, or `u32::MAX + 1` where it is larger.
pub open spec fn capped(x: int) -> int {
    if x > u32::MAX {
        u32::MAX + 1
    } else {
        x
    }
}

/// Reads a record from its text form (see `parse_line`).
pub fn parse_quota_line(line: &[u8]) -> (r: Option<QuotaRecord>)
    ensures
        r == parse_line(line@),
{
    let ghost s = line@;
    let n = line.len();
    let mut vals: Vec<u64> = Vec::new();
    let ghost mut exact: Seq<int> = Seq::empty();
    let mut i: usize = 0;
    let mut k: usize = 0;
    proof {
        match parse_fields(s, 0, 7) {
            Some(x) => {
                assert(exact + x =~= x);
            },
            None => {},
        }
    }
    while k < 7
        invariant
            s == line@,
            n == s.len(),
            k <= 7,
            i <= n,
            vals@.len() == k,
            exact.len() == k,
            forall|j: int| 0 <= j < k ==> #[trigger] vals@[j] == capped(exact[j]),
            k < 7 ==> parse_fields(s, 0, 7) == prepend(exact, parse_fields(s, i as int, 7 - k)),
            k == 7 ==> parse_fields(s, 0, 7) == Some(exact),
        decreases 7 - k,
    {
        let start = i;
        let mut v: u64 = 0;
        while i < n && line[i] != 44
            invariant
                s == line@,
                n == s.len(),
                start <= i <= n,
                field_end(s, i as int) == field_end(s, start as int),
                forall|j: int| start <= j < i ==> is_digit(#[trigger] s[j]),
                digits_value(s.subrange(start as int, i as int)) >= 0,
                v == capped(digits_value(s.subrange(start as int, i as int))),
                k < 7,
                vals@.len() == k,
                exact.len() == k,
                forall|j: int| 0 <= j < k ==> #[trigger] vals@[j] == capped(exact[j]),
                parse_fields(s, 0, 7) == prepend(exact, parse_fields(s, start as int, 7 - k)),
            decreases n - i,
        {
            let b = line[i];
            if b < 48 || b > 57 {
                proof {
                    lemma_field_end_past(s, i as int);
                    let f = s.subrange(start as int, field_end(s, start as int));
                    assert(f[i - start] == b);
                    assert(!all_digits(f));
                    assert(parse_fields(s, start as int, 7 - k) is None);
                }
                return None;
            }
            proof {
                assert(s.subrange(start as int, i + 1).drop_last() =~= s.subrange(start as int, i as int));
                assert(s.subrange(start as int, i + 1).last() == b);
            }
            if v <= u32::MAX as u64 {
                v = v * 10 + (b - 48) as u64;
                if v > u32::MAX as u64 {
                    v = u32::MAX as u64 + 1;
                }
            }
            i = i + 1;
        }
        let ghost e = i as int;
        let ghost f = s.subrange(start as int, e);
        proof {
            if i < n {
                assert(s[e] == 44);
            }
            lemma_field_end_at(s, e);
            assert(field_end(s, start as int) == e);
        }
        if i == start {
            proof {
                assert(!all_digits(f));
            }
            return None;
        }
        assert(all_digits(f));
        let ghost val = digits_value(f);
        let ghost before = exact;
        vals.push(v);
        proof {
            exact = exact.push(val);
        }
        if k == 6 {
            if i != n {
                return None;
            }
            proof {
                assert(before + seq![val] =~= exact);
            }
        } else {
            if i == n {
                return None;
            }
            proof {
                match parse_fields(s, e + 1, 7 - k - 1) {
                    Some(x) => {
                        assert(before + (seq![val] + x) =~= exact + x);
                    },
                    None => {},
                }
            }
            i = i + 1;
        }
        k = k + 1;
    }
    let mut j: usize = 0;
    while j < 7
        invariant
            j <= 7,
            vals@.len() == 7,
            exact.len() == 7,
            forall|m: int| 0 <= m < 7 ==> #[trigger] vals@[m] == capped(exact[m]),
            forall|m: int| 0 <= m < j ==> #[trigger] exact[m] <= u32::MAX,
            parse_fields(line@, 0, 7) == Some(exact),
        decreases 7 - j,
    {
        if vals[j] > u32::MAX as u64 {
            proof {
                assert(!(exact[j as int] <= u32::MAX));
                let v = exact;
                assert(!(forall|m: int| 0 <= m < 7 ==> #[trigger] v[m] <= u32::MAX));
            }
            return None;
        }
        j = j + 1;
    }
    assert(forall|m: int| 0 <= m < 7 ==> #[trigger] exact[m] <= u32::MAX);
    Some(
        QuotaRecord {
            days_to_go: vals[0] as u32,
            new_assigned: vals[1] as u32,
            review_assigned: vals[2] as u32,
            new_quota_initial: vals[3] as u32,
            review_quota_initial: vals[4] as u32,
            new_practiced: vals[5] as u32,
            review_practiced: vals[6] as u32,
        },
    )
}

/// A field reaches at least past index `i` where `s[i]` is no comma.
proof fn lemma_field_end_past(s: Seq<u8>, i: int)
    requires
        0 <= i < s.len(),
        s[i] != 44,
    ensures
        field_end(s, i) > i,
        field_end(s, i) <= s.len(),
{
    lemma_field_end_bound(s, i + 1);
}

proof fn lemma_field_end_bound(s: Seq<u8>, i: int)
    requires
        0 <= i <= s.len(),
    ensures
        i <= field_end(s, i) <= s.len(),
    decreases s.len() - i,
{
    if i < s.len() && s[i] != 44 {
        lemma_field_end_bound(s, i + 1);
    }
}

proof fn lemma_field_end_at(s: Seq<u8>, e: int)
    requires
        0 <= e <= s.len(),
        e == s.len() || s[e] == 44,
    ensures
        field_end(s, e) == e,
{
}

} // verus!
