use vstd::prelude::*;

verus! {

/// Decimal digits of a natural number, most significant first, in ASCII.
pub open spec fn digits(n: nat) -> Seq<u8>
    decreases n,
{
    if n < 10 {
        seq![(48 + n) as u8]
    } else {
        digits(n / 10).push((48 + n % 10) as u8)
    }
}

/// The decimal text of an integer, with a leading `-` when it is negative.
pub open spec fn decimal(n: int) -> Seq<u8> {
    if n < 0 {
        seq![45u8] + digits((-n) as nat)
    } else {
        digits(n as nat)
    }
}

/// One line of a series log: `<timestamp>,<value text>` and a newline.
pub open spec fn record_bytes(timestamp: int, value_text: Seq<u8>) -> Seq<u8> {
    decimal(timestamp) + seq![44u8] + value_text + seq![10u8]
}

/// Writes the decimal digits of `n`.
pub fn encode_digits(n: u64) -> (r: Vec<u8>)
    ensures
        r@ == digits(n as nat),
{
    let mut acc: Vec<u8> = Vec::new();
    let mut m: u64 = n;
    while m >= 10
        invariant
            digits(n as nat) == digits(m as nat) + acc@,
        decreases m,
    {
        let d = (m % 10) as u8;
        let ghost before = acc@;
        acc.insert(0, 48 + d);
        proof {
            assert(digits(m as nat) == digits((m / 10) as nat).push((48 + m % 10) as u8));
            assert(digits(m as nat) + before =~= digits((m / 10) as nat) + acc@);
        }
        m = m / 10;
    }
    let ghost before = acc@;
    acc.insert(0, 48 + m as u8);
    assert(digits(m as nat) + before =~= acc@);
    acc
}

/// Writes the decimal text of `timestamp`.
pub fn encode_timestamp(timestamp: i64) -> (r: Vec<u8>)
    ensures
        r@ == decimal(timestamp as int),
{
    let magnitude: u64 = if timestamp < 0 {
        (-(timestamp as i128)) as u64
    } else {
        timestamp as u64
    };
    let mut acc = encode_digits(magnitude);
    if timestamp < 0 {
        let mut out: Vec<u8> = Vec::new();
        out.push(45u8);
        out.append(&mut acc);
        assert(out@ =~= seq![45u8] + digits(magnitude as nat));
        out
    } else {
        acc
    }
}

/// The log line for a point whose value is written as `value_text`.
pub fn encode_record(timestamp: i64, value_text: &Vec<u8>) -> (r: Vec<u8>)
    ensures
        r@ == record_bytes(timestamp as int, value_text@),
{
    let mut out = encode_timestamp(timestamp);
    out.push(44u8);
    let mut i: usize = 0;
    let ghost head = out@;
    while i < value_text.len()
        invariant
            i <= value_text@.len(),
            out@ == head + value_text@.take(i as int),
        decreases value_text@.len() - i,
    {
        out.push(value_text[i]);
        i = i + 1;
        assert(out@ =~= head + value_text@.take(i as int));
    }
    out.push(10u8);
    assert(value_text@.take(i as int) =~= value_text@);
    assert(out@ =~= record_bytes(timestamp as int, value_text@));
    out
}

pub open spec fn is_digit(c: u8) -> bool {
    48 <= c <= 57
}

pub open spec fn all_digits(s: Seq<u8>) -> bool {
    forall|i: int| 0 <= i < s.len() ==> is_digit(s[i])
}

/// The number that a run of ASCII digits denotes.
pub open spec fn digits_value(s: Seq<u8>) -> nat
    decreases s.len(),
{
    if s.len() == 0 {
        0
    } else {
        digits_value(s.drop_last()) * 10 + (s.last() - 48) as nat
    }
}

/// The integer that `s` writes in decimal (an optional `-`, then one or more
/// digits), if it writes one.
pub open spec fn decimal_value(s: Seq<u8>) -> Option<int> {
    if s.len() > 0 && s[0] == 45u8 {
        let t = s.skip(1);
        if t.len() > 0 && all_digits(t) {
            Some(-(digits_value(t) as int))
        } else {
            None
        }
    } else if s.len() > 0 && all_digits(s) {
        Some(digits_value(s) as int)
    } else {
        None
    }
}

/// The timestamp that `s` writes, if it writes an integer that fits in 64 bits.
pub open spec fn timestamp_value(s: Seq<u8>) -> Option<int> {
    match decimal_value(s) {
        Some(v) => if i64::MIN <= v <= i64::MAX {
            Some(v)
        } else {
            None
        },
        None => None,
    }
}

/// `k` is the first position of `c` in `s`.
pub open spec fn first_at(s: Seq<u8>, c: u8, k: int) -> bool {
    &&& 0 <= k < s.len()
    &&& s[k] == c
    &&& forall|j: int| 0 <= j < k ==> s[j] != c
}

/// The first position of `c` in `s`, or the length of `s` when it has none.
pub open spec fn find_byte(s: Seq<u8>, c: u8) -> int {
    if exists|k: int| first_at(s, c, k) {
        choose|k: int| first_at(s, c, k)
    } else {
        s.len() as int
    }
}

/// The point that one log line (without its newline) writes: the timestamp
/// before the first comma and the value text after it.
pub open spec fn line_record(line: Seq<u8>) -> Option<(int, Seq<u8>)> {
    let k = find_byte(line, 44u8);
    if k < line.len() {
        match timestamp_value(line.take(k)) {
            Some(t) => Some((t, line.skip(k + 1))),
            None => None,
        }
    } else {
        None
    }
}

/// The points that a whole log writes, line by line in file order; empty
/// lines are passed over, and any other line that is no record spoils the log.
pub open spec fn log_records(s: Seq<u8>) -> Option<Seq<(int, Seq<u8>)>>
    decreases s.len(),
{
    if s.len() == 0 {
        Some(Seq::empty())
    } else {
        let k = find_byte(s, 10u8);
        let line = s.take(k);
        let rest = if k < s.len() {
            s.skip(k + 1)
        } else {
            Seq::empty()
        };
        // Always true; stated so that the recursion visibly ends.
        if rest.len() < s.len() {
            match log_records(rest) {
                None => None,
                Some(rs) => if line.len() == 0 {
                    Some(rs)
                } else {
                    match line_record(line) {
                        Some(r) => Some(seq![r] + rs),
                        None => None,
                    }
                },
            }
        } else {
            None
        }
    }
}

pub proof fn lemma_find_byte(s: Seq<u8>, c: u8, k: int)
    requires
        (first_at(s, c, k)) || (k == s.len() && forall|j: int| 0 <= j < s.len() ==> s[j] != c),
    ensures
        find_byte(s, c) == k,
{
    if exists|k2: int| first_at(s, c, k2) {
        let k2 = choose|k2: int| first_at(s, c, k2);
        if k2 < k {
        } else if k < k2 {
        }
    }
}

pub proof fn lemma_digits_value_prefix(t: Seq<u8>, k: int)
    requires
        all_digits(t),
        0 <= k <= t.len(),
    ensures
        digits_value(t) >= digits_value(t.take(k)),
    decreases t.len(),
{
    if k < t.len() {
        let d = t.drop_last();
        assert(d.take(k) =~= t.take(k));
        lemma_digits_value_prefix(d, k);
    } else {
        assert(t.take(k) =~= t);
    }
}

/// Reads the timestamp that `s[start..end]` writes.
pub fn parse_timestamp(s: &Vec<u8>, start: usize, end: usize) -> (r: Option<i64>)
    requires
        start <= end <= s@.len(),
    ensures
        match r {
            Some(v) => timestamp_value(s@.subrange(start as int, end as int)) == Some(v as int),
            None => timestamp_value(s@.subrange(start as int, end as int)) is None,
        },
{
    let ghost sub = s@.subrange(start as int, end as int);
    if start == end {
        return None;
    }
    let negative = s[start] == 45u8;
    let first = if negative { start + 1 } else { start };
    let ghost t = s@.subrange(first as int, end as int);
    proof {
        assert(sub[0] == s@[start as int]);
        if negative {
            assert(t =~= sub.skip(1));
        } else {
            assert(t =~= sub);
        }
    }
    if first == end {
        return None;
    }
    let mut acc: u128 = 0;
    let mut i: usize = first;
    while i < end
        invariant
            start <= first <= i <= end <= s@.len(),
            t == s@.subrange(first as int, end as int),
            sub == s@.subrange(start as int, end as int),
            sub.len() > 0,
            negative == (sub[0] == 45u8),
            negative ==> t == sub.skip(1),
            !negative ==> t == sub,
            acc == digits_value(t.take(i - first)),
            acc <= 0x8000_0000_0000_0000u128,
            forall|j: int| 0 <= j < i - first ==> is_digit(t[j]),
        decreases end - i,
    {
        let c = s[i];
        if c < 48u8 || c > 57u8 {
            assert(t[i - first] == c);
            assert(!all_digits(t));
            return None;
        }
        proof {
            assert(t.take(i + 1 - first).drop_last() =~= t.take(i - first));
            assert(t.take(i + 1 - first).last() == c);
        }
        acc = acc * 10 + (c - 48u8) as u128;
        if acc > 0x8000_0000_0000_0000u128 {
            proof {
                if all_digits(t) {
                    lemma_digits_value_prefix(t, i + 1 - first);
                }
            }
            return None;
        }
        i = i + 1;
    }
    assert(t.take(i - first) =~= t);
    if negative {
        Some((-(acc as i128)) as i64)
    } else if acc > 0x7fff_ffff_ffff_ffffu128 {
        None
    } else {
        Some(acc as i64)
    }
}

/// A point as a log line writes it: the timestamp and the value's text.
pub struct RawRecord {
    pub timestamp: i64,
    pub value_text: Vec<u8>,
}

pub open spec fn records_view(v: Seq<RawRecord>) -> Seq<(int, Seq<u8>)> {
    v.map_values(|r: RawRecord| (r.timestamp as int, r.value_text@))
}

fn copy_range(s: &Vec<u8>, start: usize, end: usize) -> (r: Vec<u8>)
    requires
        start <= end <= s@.len(),
    ensures
        r@ == s@.subrange(start as int, end as int),
{
    let mut r: Vec<u8> = Vec::new();
    let mut i: usize = start;
    while i < end
        invariant
            start <= i <= end <= s@.len(),
            r@ == s@.subrange(start as int, i as int),
        decreases end - i,
    {
        r.push(s[i]);
        i = i + 1;
        assert(r@ =~= s@.subrange(start as int, i as int));
    }
    r
}

/// Reads the point that the line `s[start..end]` (without its newline) writes.
pub fn parse_line(s: &Vec<u8>, start: usize, end: usize) -> (r: Option<RawRecord>)
    requires
        start <= end <= s@.len(),
    ensures
        match r {
            Some(rec) => line_record(s@.subrange(start as int, end as int)) == Some(
                (rec.timestamp as int, rec.value_text@),
            ),
            None => line_record(s@.subrange(start as int, end as int)) is None,
        },
{
    let ghost line = s@.subrange(start as int, end as int);
    let mut k: usize = start;
    while k < end && s[k] != 44u8
        invariant
            start <= k <= end <= s@.len(),
            forall|j: int| start <= j < k ==> s@[j] != 44u8,
        decreases end - k,
    {
        k = k + 1;
    }
    proof {
        lemma_find_byte(line, 44u8, k - start);
    }
    if k == end {
        return None;
    }
    assert(line.take(k - start) =~= s@.subrange(start as int, k as int));
    assert(line.skip(k - start + 1) =~= s@.subrange(k + 1, end as int));
    match parse_timestamp(s, start, k) {
        Some(t) => Some(RawRecord { timestamp: t, value_text: copy_range(s, k + 1, end) }),
        None => None,
    }
}

pub open spec fn prepend(
    acc: Seq<(int, Seq<u8>)>,
    rest: Option<Seq<(int, Seq<u8>)>>,
) -> Option<Seq<(int, Seq<u8>)>> {
    match rest {
        Some(rs) => Some(acc + rs),
        None => None,
    }
}

/// Reads every point of a series log, in file order, or `None` when a line is
/// no record.
pub fn parse_log(s: &Vec<u8>) -> (r: Option<Vec<RawRecord>>)
    ensures
        match log_records(s@) {
            Some(rs) => r is Some && records_view(r.unwrap()@) == rs,
            None => r is None,
        },
{
    let mut out: Vec<RawRecord> = Vec::new();
    let mut pos: usize = 0;
    proof {
        assert(s@.skip(0) =~= s@);
        match log_records(s@) {
            Some(rs) => {
                assert(records_view(out@) + rs =~= rs);
            },
            None => {},
        }
    }
    while pos < s.len()
        invariant
            pos <= s@.len(),
            log_records(s@) == prepend(records_view(out@), log_records(s@.skip(pos as int))),
        decreases s@.len() - pos,
    {
        let ghost sp = s@.skip(pos as int);
        let mut k: usize = pos;
        while k < s.len() && s[k] != 10u8
            invariant
                pos <= k <= s@.len(),
                forall|j: int| pos <= j < k ==> s@[j] != 10u8,
            decreases s@.len() - k,
        {
            k = k + 1;
        }
        proof {
            lemma_find_byte(sp, 10u8, k - pos);
            assert(sp.take(k - pos) =~= s@.subrange(pos as int, k as int));
        }
        let next: usize = if k < s.len() { k + 1 } else { k };
        proof {
            if k < s@.len() {
                assert(sp.skip(k - pos + 1) =~= s@.skip(next as int));
            } else {
                assert(s@.skip(next as int) =~= Seq::<u8>::empty());
            }
        }
        let ghost before = records_view(out@);
        if k > pos {
            match parse_line(s, pos, k) {
                Some(rec) => {
                    out.push(rec);
                    proof {
                        assert(records_view(out@) =~= before.push((rec.timestamp as int, rec.value_text@)));
                        match log_records(s@.skip(next as int)) {
                            Some(rs) => {
                                assert(before + (seq![(rec.timestamp as int, rec.value_text@)] + rs)
                                    =~= records_view(out@) + rs);
                            },
                            None => {},
                        }
                    }
                },
                None => {
                    return None;
                },
            }
        }
        pos = next;
    }
    proof {
        assert(s@.skip(pos as int) =~= Seq::<u8>::empty());
        assert(records_view(out@) + Seq::<(int, Seq<u8>)>::empty() =~= records_view(out@));
    }
    Some(out)
}

proof fn lemma_digits(n: nat)
    ensures
        digits(n).len() > 0,
        all_digits(digits(n)),
        digits_value(digits(n)) == n,
    decreases n,
{
    if n >= 10 {
        lemma_digits(n / 10);
        let d = digits(n);
        assert(d.drop_last() =~= digits(n / 10));
        assert(d.last() == (48 + n % 10) as u8);
        vstd::arithmetic::div_mod::lemma_fundamental_div_mod(n as int, 10);
        assert(digits_value(d) == digits_value(d.drop_last()) * 10 + (d.last() - 48) as nat);
        assert(digits_value(d) == (n / 10) * 10 + n % 10);
    } else {
        let d = digits(n);
        assert(d.drop_last() =~= Seq::<u8>::empty());
        assert(digits_value(d.drop_last()) == 0);
        assert(digits_value(d) == digits_value(d.drop_last()) * 10 + (d.last() - 48) as nat);
    }
}

/// The decimal text of a 64-bit timestamp reads back as that timestamp.
pub proof fn lemma_timestamp_round_trip(t: int)
    requires
        i64::MIN <= t <= i64::MAX,
    ensures
        timestamp_value(decimal(t)) == Some(t),
        forall|j: int| 0 <= j < decimal(t).len() ==> decimal(t)[j] != 44u8 && decimal(t)[j] != 10u8,
{
    if t < 0 {
        lemma_digits((-t) as nat);
        assert(decimal(t).skip(1) =~= digits((-t) as nat));
    } else {
        lemma_digits(t as nat);
    }
}

/// A log that is empty or ends with a newline: every record in it is whole.
pub open spec fn whole_lines(s: Seq<u8>) -> bool {
    s.len() == 0 || s.last() == 10u8
}

/// The line of one point, read back as a whole log, gives exactly that point.
pub proof fn lemma_single_record(t: int, value_text: Seq<u8>)
    requires
        i64::MIN <= t <= i64::MAX,
        forall|j: int| 0 <= j < value_text.len() ==> value_text[j] != 10u8,
    ensures
        log_records(record_bytes(t, value_text)) == Some(seq![(t, value_text)]),
{
    let x = record_bytes(t, value_text);
    let d = decimal(t);
    lemma_timestamp_round_trip(t);
    let k = x.len() - 1;
    lemma_find_byte(x, 10u8, k);
    let line = x.take(k);
    assert(line =~= d + seq![44u8] + value_text);
    lemma_find_byte(line, 44u8, d.len() as int);
    assert(line.take(d.len() as int) =~= d);
    assert(line.skip(d.len() as int + 1) =~= value_text);
    assert(x.skip(k + 1) =~= Seq::<u8>::empty());
    assert(log_records(Seq::<u8>::empty()) == Some(Seq::<(int, Seq<u8>)>::empty()));
    assert(line_record(line) == Some((t, value_text)));
    assert(seq![(t, value_text)] + Seq::<(int, Seq<u8>)>::empty() =~= seq![(t, value_text)]);
}

/// Appending the line of one point to a log of whole lines adds exactly that
/// point after the ones the log already held, in arrival order.
pub proof fn lemma_append_record(s: Seq<u8>, t: int, value_text: Seq<u8>)
    requires
        whole_lines(s),
        i64::MIN <= t <= i64::MAX,
        forall|j: int| 0 <= j < value_text.len() ==> value_text[j] != 10u8,
    ensures
        log_records(s + record_bytes(t, value_text)) == match log_records(s) {
            Some(rs) => Some(rs.push((t, value_text))),
            None => None,
        },
    decreases s.len(),
{
    let x = record_bytes(t, value_text);
    if s.len() == 0 {
        assert(s + x =~= x);
        lemma_single_record(t, value_text);
        assert(Seq::<(int, Seq<u8>)>::empty().push((t, value_text)) =~= seq![(t, value_text)]);
    } else {
        let sx = s + x;
        assert(s[s.len() - 1] == 10u8);
        assert(exists|k2: int| first_at(s, 10u8, k2)) by {
            lemma_first_exists(s, 10u8, s.len() - 1);
        }
        let k = choose|k2: int| first_at(s, 10u8, k2);
        lemma_find_byte(s, 10u8, k);
        lemma_find_byte(sx, 10u8, k);
        assert(sx.take(k) =~= s.take(k));
        let rest = s.skip(k + 1);
        assert(sx.skip(k + 1) =~= rest + x);
        assert(whole_lines(rest)) by {
            if rest.len() > 0 {
                assert(rest.last() == s.last());
            }
        }
        lemma_append_record(rest, t, value_text);
        match log_records(rest) {
            Some(rs) => {
                assert(seq![line_record(s.take(k)).unwrap()] + rs.push((t, value_text))
                    =~= (seq![line_record(s.take(k)).unwrap()] + rs).push((t, value_text)));
            },
            None => {},
        }
    }
}

proof fn lemma_first_exists(s: Seq<u8>, c: u8, q: int)
    requires
        0 <= q < s.len(),
        s[q] == c,
    ensures
        exists|k: int| first_at(s, c, k),
    decreases q,
{
    if forall|j: int| 0 <= j < q ==> s[j] != c {
        assert(first_at(s, c, q));
    } else {
        let j = choose|j: int| 0 <= j < q && s[j] == c;
        lemma_first_exists(s, c, j);
    }
}

/// The log that holds one line per point of `rs`, in order.
pub open spec fn log_bytes(rs: Seq<(int, Seq<u8>)>) -> Seq<u8>
    decreases rs.len(),
{
    if rs.len() == 0 {
        Seq::empty()
    } else {
        log_bytes(rs.drop_last()) + record_bytes(rs.last().0, rs.last().1)
    }
}

/// A log written one line per point, each appended in turn, reads back as
/// exactly those points in the order they were written: none lost, none
/// added, none reordered.
pub proof fn lemma_log_round_trip(rs: Seq<(int, Seq<u8>)>)
    requires
        forall|i: int| 0 <= i < rs.len() ==> i64::MIN <= #[trigger] rs[i].0 <= i64::MAX,
        forall|i: int, j: int| 0 <= i < rs.len() && 0 <= j < rs[i].1.len() ==> rs[i].1[j] != 10u8,
    ensures
        log_records(log_bytes(rs)) == Some(rs),
    decreases rs.len(),
{
    if rs.len() == 0 {
        assert(log_records(Seq::<u8>::empty()) == Some(Seq::<(int, Seq<u8>)>::empty()));
        assert(rs =~= Seq::<(int, Seq<u8>)>::empty());
    } else {
        let init = rs.drop_last();
        let (t, v) = rs.last();
        assert(rs[rs.len() - 1] == rs.last());
        lemma_log_round_trip(init);
        let prefix = log_bytes(init);
        assert(whole_lines(prefix)) by {
            if init.len() > 0 {
                let (t2, v2) = init.last();
                assert(prefix.last() == record_bytes(t2, v2).last());
            }
        }
        lemma_append_record(prefix, t, v);
        assert(init.push((t, v)) =~= rs);
    }
}

} // verus!
