//! Byte-level pieces of NMEA 0183 sentences: comma-separated fields and
//! unsigned decimal numbers.
use vstd::prelude::*;

verus! {

/// `,`, the field separator.
pub const COMMA: u8 = 44;

/// `+`, the optional sign in front of a number.
pub const PLUS: u8 = 43;

/// The position of the first `b` in `s`, or the length of `s` when `s`
/// holds no `b`.
pub open spec fn first_index_of(s: Seq<u8>, b: u8) -> nat
    decreases s.len(),
{
    if s.len() == 0 {
        0
    } else if s[0] == b {
        0
    } else {
        1 + first_index_of(s.drop_first(), b)
    }
}

/// `first_index_of` is the position of the first `b`, or the end.
pub proof fn lemma_first_index_of(s: Seq<u8>, b: u8)
    ensures
        first_index_of(s, b) <= s.len(),
        forall|i: int| 0 <= i < first_index_of(s, b) ==> s[i] != b,
        first_index_of(s, b) < s.len() ==> s[first_index_of(s, b) as int] == b,
    decreases s.len(),
{
    if s.len() > 0 && s[0] != b {
        lemma_first_index_of(s.drop_first(), b);
        assert forall|i: int| 0 <= i < first_index_of(s, b) implies s[i] != b by {
            if i > 0 {
                assert(s[i] == s.drop_first()[i - 1]);
            }
        }
    }
}

/// A position before which no `b` occurs, and which is the end or holds a
/// `b`, is `first_index_of`.
pub proof fn lemma_first_index_of_unique(s: Seq<u8>, b: u8, r: int)
    requires
        0 <= r <= s.len(),
        forall|i: int| 0 <= i < r ==> s[i] != b,
        r < s.len() ==> s[r] == b,
    ensures
        first_index_of(s, b) == r,
    decreases s.len(),
{
    if s.len() > 0 && s[0] != b {
        assert(r > 0);
        let t = s.drop_first();
        assert forall|i: int| 0 <= i < r - 1 implies t[i] != b by {
            assert(t[i] == s[i + 1]);
        }
        if r - 1 < t.len() {
            assert(t[r - 1] == s[r]);
        }
        lemma_first_index_of_unique(t, b, r - 1);
    }
}

/// The position of the first `b` in `s` at or after `from`, or the length
/// of `s` when there is none.
pub fn find_byte(s: &[u8], from: usize, b: u8) -> (at: usize)
    requires
        from <= s@.len(),
    ensures
        at == from + first_index_of(s@.skip(from as int), b),
        from <= at <= s@.len(),
{
    let mut j = from;
    while j < s.len() && s[j] != b
        invariant
            from <= j <= s@.len(),
            forall|k: int| from <= k < j ==> s@[k] != b,
        decreases s@.len() - j,
    {
        j = j + 1;
    }
    proof {
        let t = s@.skip(from as int);
        assert forall|i: int| 0 <= i < j - from implies t[i] != b by {
            assert(t[i] == s@[from + i]);
        }
        if j < s@.len() {
            assert(t[j - from] == s@[j as int]);
        }
        lemma_first_index_of_unique(t, b, j - from);
    }
    j
}

/// Where field `n` of a sentence lies, counting fields from 0 and
/// separating them at commas: the position of its first byte and of the
/// byte after its last; `None` when the sentence has fewer than `n + 1`
/// fields.
pub open spec fn field_span(s: Seq<u8>, n: nat) -> Option<(nat, nat)>
    decreases n,
{
    let k = first_index_of(s, COMMA);
    if n == 0 {
        Some((0, k))
    } else if k >= s.len() {
        None
    } else {
        match field_span(s.skip(k + 1 as int), (n - 1) as nat) {
            Some((a, b)) => Some((a + k + 1, b + k + 1)),
            None => None,
        }
    }
}

/// Field `n` of a sentence, or `None` when the sentence is too short.
pub open spec fn nth_field(s: Seq<u8>, n: nat) -> Option<Seq<u8>> {
    match field_span(s, n) {
        Some((a, b)) => Some(s.subrange(a as int, b as int)),
        None => None,
    }
}

/// Field `n` of a sentence, or `default` when the sentence is too short.
pub open spec fn field_or(s: Seq<u8>, n: nat, default: Seq<u8>) -> Seq<u8> {
    match nth_field(s, n) {
        Some(f) => f,
        None => default,
    }
}

/// Locates field `idx` of `line`: the positions of its first byte and of
/// the byte after its last; `None` when the line has fewer fields.
pub fn nmea_field(line: &[u8], idx: usize) -> (span: Option<(usize, usize)>)
    ensures
        match field_span(line@, idx as nat) {
            Some((a, b)) => span == Some((a as usize, b as usize)) && a <= b <= line@.len(),
            None => span is None,
        },
        span matches Some((a, b)) ==> a <= b <= line@.len() && nth_field(line@, idx as nat) == Some(
            line@.subrange(a as int, b as int),
        ),
        span is Some <==> comma_count(line@) >= idx,
        span matches Some((a, b)) ==> {
            &&& comma_count(line@.take(a as int)) == idx
            &&& a == 0 || line@[a - 1] == COMMA
            &&& forall|i: int| a <= i < b ==> line@[i] != COMMA
            &&& b == line@.len() || line@[b as int] == COMMA
        },
{
    proof {
        lemma_nth_field_exists_iff_commas(line@, idx as nat);
        lemma_field_span_between_commas(line@, idx as nat);
    }
    let mut start: usize = 0;
    let mut k: usize = 0;
    assert(line@.skip(0) =~= line@);
    while k < idx
        invariant
            start <= line@.len(),
            k <= idx,
            match field_span(line@.skip(start as int), (idx - k) as nat) {
                Some((a, b)) => field_span(line@, idx as nat) == Some(((a + start) as nat, (b + start) as nat)),
                None => field_span(line@, idx as nat) is None,
            },
        decreases idx - k,
    {
        let j = find_byte(line, start, COMMA);
        if j >= line.len() {
            proof {
                lemma_nth_field_exists_iff_commas(line@, idx as nat);
            }
            return None;
        }
        assert(line@.skip(start as int).skip(j - start + 1) =~= line@.skip(j + 1));
        start = j + 1;
        k = k + 1;
    }
    let end = find_byte(line, start, COMMA);
    Some((start, end))
}

/// A copy of `s[from..to]`.
pub fn copy_range(s: &[u8], from: usize, to: usize) -> (v: Vec<u8>)
    requires
        from <= to <= s@.len(),
    ensures
        v@ == s@.subrange(from as int, to as int),
{
    let mut v: Vec<u8> = Vec::new();
    let mut i = from;
    while i < to
        invariant
            from <= i <= to <= s@.len(),
            v@ == s@.subrange(from as int, i as int),
        decreases to - i,
    {
        v.push(s[i]);
        i = i + 1;
        assert(v@ =~= s@.subrange(from as int, i as int));
    }
    v
}

/// Field `idx` of `line` as bytes, or `default` when the line is too short.
pub fn field_or_default(line: &[u8], idx: usize, default: Vec<u8>) -> (f: Vec<u8>)
    ensures
        f@ == field_or(line@, idx as nat, default@),
{
    match nmea_field(line, idx) {
        Some((a, b)) => copy_range(line, a, b),
        None => default,
    }
}

/// True of the ASCII digits `0` to `9`.
pub open spec fn is_digit(c: u8) -> bool {
    48 <= c <= 57
}

/// The value of a string of ASCII digits.
pub open spec fn digits_value(s: Seq<u8>) -> nat
    decreases s.len(),
{
    if s.len() == 0 {
        0
    } else {
        digits_value(s.drop_last()) * 10 + (s.last() - 48) as nat
    }
}

/// The digits of a number: what follows a leading `+`, if there is one.
pub open spec fn unsigned_digits(s: Seq<u8>) -> Seq<u8> {
    if s.len() > 0 && s[0] == PLUS {
        s.drop_first()
    } else {
        s
    }
}

/// An unsigned 8-bit decimal number: an optional `+` followed by one or
/// more ASCII digits whose value is at most 255; `None` for anything else.
pub open spec fn parse_u8_spec(s: Seq<u8>) -> Option<u8> {
    let d = unsigned_digits(s);
    if d.len() > 0 && (forall|i: int| 0 <= i < d.len() ==> is_digit(#[trigger] d[i])) && digits_value(d) <= 255 {
        Some(digits_value(d) as u8)
    } else {
        None
    }
}

/// Reads `s[from..to]` as an unsigned 8-bit decimal number.
pub fn parse_u8_range(s: &[u8], from: usize, to: usize) -> (v: Option<u8>)
    requires
        from <= to <= s@.len(),
    ensures
        v == parse_u8_spec(s@.subrange(from as int, to as int)),
        from < to && (forall|i: int| from <= i < to ==> 48 <= #[trigger] s@[i] <= 57)
            && digits_value(s@.subrange(from as int, to as int)) <= 255
            ==> v == Some(digits_value(s@.subrange(from as int, to as int)) as u8),
{
    proof {
        let d = s@.subrange(from as int, to as int);
        if from < to && (forall|i: int| from <= i < to ==> 48 <= #[trigger] s@[i] <= 57) {
            assert forall|i: int| 0 <= i < d.len() implies 48 <= #[trigger] d[i] <= 57 by {
                assert(d[i] == s@[from + i]);
            }
            lemma_parse_u8_reads_digits(d);
        }
    }
    let ghost whole = s@.subrange(from as int, to as int);
    let start = if from < to && s[from] == PLUS { from + 1 } else { from };
    let ghost d = unsigned_digits(whole);
    assert(d =~= s@.subrange(start as int, to as int));
    if start >= to {
        return None;
    }
    let mut acc: u32 = 0;
    let mut i = start;
    assert(s@.subrange(start as int, start as int) =~= Seq::<u8>::empty());
    while i < to
        invariant
            start <= i <= to <= s@.len(),
            d == s@.subrange(start as int, to as int),
            d == unsigned_digits(whole),
            whole == s@.subrange(from as int, to as int),
            forall|k: int| start <= k < i ==> is_digit(s@[k]),
            acc == if digits_value(s@.subrange(start as int, i as int)) < 256 {
                digits_value(s@.subrange(start as int, i as int))
            } else {
                256
            },
        decreases to - i,
    {
        let c = s[i];
        if c < 48 || c > 57 {
            proof {
                assert(d[i - start] == c);
                assert(!is_digit(d[i - start]));
                assert(unsigned_digits(whole) == d);
                assert(parse_u8_spec(whole) is None);
            }
            return None;
        }
        let v = acc * 10 + (c - 48) as u32;
        acc = if v > 256 { 256 } else { v };
        proof {
            let p = s@.subrange(start as int, i + 1);
            assert(p.drop_last() =~= s@.subrange(start as int, i as int));
            assert(p.last() == c);
        }
        i = i + 1;
    }
    proof {
        assert(s@.subrange(start as int, i as int) == d);
        assert forall|k: int| 0 <= k < d.len() implies is_digit(#[trigger] d[k]) by {
            assert(d[k] == s@[start + k]);
        }
    }
    if acc <= 255 {
        Some(acc as u8)
    } else {
        None
    }
}

/// Reads `s` as an unsigned 8-bit decimal number: an optional `+` and one
/// or more digits, with a value of at most 255.
pub fn parse_decimal_u8(s: &[u8]) -> (v: Option<u8>)
    ensures
        v == parse_u8_spec(s@),
        s@.len() > 0 && (forall|i: int| 0 <= i < s@.len() ==> 48 <= #[trigger] s@[i] <= 57)
            && digits_value(s@) <= 255 ==> v == Some(digits_value(s@) as u8),
{
    proof {
        if s@.len() > 0 && (forall|i: int| 0 <= i < s@.len() ==> 48 <= #[trigger] s@[i] <= 57) {
            lemma_parse_u8_reads_digits(s@);
        }
    }
    assert(s@.subrange(0, s@.len() as int) =~= s@);
    parse_u8_range(s, 0, s.len())
}

/// Reading decimal digits, with or without leading zeros: every nonempty
/// string of ASCII digits whose value `v` is at most 255 reads as `v`, and
/// so does the same string behind a `+`; a string of digits whose value is
/// above 255 does not read at all.
pub proof fn lemma_parse_u8_reads_digits(d: Seq<u8>)
    requires
        d.len() > 0,
        forall|i: int| 0 <= i < d.len() ==> 48 <= #[trigger] d[i] <= 57,
    ensures
        digits_value(d) <= 255 ==> parse_u8_spec(d) == Some(digits_value(d) as u8),
        digits_value(d) <= 255 ==> parse_u8_spec(seq![PLUS] + d) == Some(digits_value(d) as u8),
        digits_value(d) > 255 ==> parse_u8_spec(d) is None && parse_u8_spec(seq![PLUS] + d) is None,
{
    assert(d[0] != PLUS);
    assert(unsigned_digits(d) == d);
    assert((seq![PLUS] + d).drop_first() =~= d);
    assert(unsigned_digits(seq![PLUS] + d) == d);
    assert(forall|i: int| 0 <= i < d.len() ==> is_digit(#[trigger] d[i]));
}

/// The value of ASCII digits is positional: appending a digit multiplies
/// the value by ten and adds the digit; a single digit `c` is worth
/// `c - 48`, and two digits `a c` are worth `10 * (a - 48) + (c - 48)`.
pub proof fn lemma_digits_value_positional(d: Seq<u8>, a: u8, c: u8)
    requires
        48 <= a <= 57,
        48 <= c <= 57,
    ensures
        digits_value(d.push(c)) == digits_value(d) * 10 + (c - 48),
        digits_value(seq![c]) == c - 48,
        digits_value(seq![a, c]) == 10 * (a - 48) + (c - 48),
{
    assert(d.push(c).drop_last() =~= d);
    assert(digits_value(Seq::<u8>::empty()) == 0);
    assert(seq![c].drop_last() =~= Seq::<u8>::empty());
    assert(seq![c].last() == c);
    assert(digits_value(seq![c]) == c - 48);
    assert(seq![a].drop_last() =~= Seq::<u8>::empty());
    assert(seq![a].last() == a);
    assert(digits_value(seq![a]) == a - 48);
    assert(seq![a, c].drop_last() =~= seq![a]);
    assert(seq![a, c].last() == c);
}

/// Reading a parsed number back: when a string reads as `v`, it is an
/// optional `+` followed by one or more ASCII digits worth `v`.
pub proof fn lemma_parse_u8_inverts(s: Seq<u8>)
    ensures
        parse_u8_spec(s) matches Some(v) ==> {
            let d = if s.len() > 0 && s[0] == PLUS { s.drop_first() } else { s };
            &&& d.len() > 0
            &&& forall|i: int| 0 <= i < d.len() ==> 48 <= #[trigger] d[i] <= 57
            &&& digits_value(d) == v
        },
{
}

/// The number of commas in `s`.
pub open spec fn comma_count(s: Seq<u8>) -> nat
    decreases s.len(),
{
    if s.len() == 0 {
        0
    } else {
        comma_count(s.drop_last()) + if s.last() == COMMA { 1nat } else { 0nat }
    }
}

proof fn lemma_comma_count_concat(a: Seq<u8>, b: Seq<u8>)
    ensures
        comma_count(a + b) == comma_count(a) + comma_count(b),
    decreases b.len(),
{
    if b.len() == 0 {
        assert(a + b =~= a);
    } else {
        assert((a + b).drop_last() =~= a + b.drop_last());
        lemma_comma_count_concat(a, b.drop_last());
    }
}

proof fn lemma_comma_count_zero(s: Seq<u8>)
    requires
        forall|i: int| 0 <= i < s.len() ==> s[i] != COMMA,
    ensures
        comma_count(s) == 0,
    decreases s.len(),
{
    if s.len() > 0 {
        lemma_comma_count_zero(s.drop_last());
    }
}

/// Where field `n` lies, it lies inside the sentence.
proof fn lemma_field_span_bounds(s: Seq<u8>, n: nat)
    ensures
        field_span(s, n) matches Some((a, b)) ==> a <= b <= s.len(),
    decreases n,
{
    lemma_first_index_of(s, COMMA);
    let k = first_index_of(s, COMMA);
    if n > 0 && k < s.len() {
        lemma_field_span_bounds(s.skip(k + 1 as int), (n - 1) as nat);
    }
}

/// Field `n > 0` of a sentence is field `n - 1` of what follows its first
/// comma.
proof fn lemma_nth_field_after_comma(s: Seq<u8>, n: nat)
    requires
        n > 0,
        first_index_of(s, COMMA) < s.len(),
    ensures
        nth_field(s, n) == nth_field(s.skip(first_index_of(s, COMMA) + 1 as int), (n - 1) as nat),
{
    let k = first_index_of(s, COMMA);
    let t = s.skip(k + 1 as int);
    lemma_field_span_bounds(t, (n - 1) as nat);
    if let Some((a, b)) = field_span(t, (n - 1) as nat) {
        assert(s.subrange((a + k + 1) as int, (b + k + 1) as int) =~= t.subrange(a as int, b as int));
    }
}

/// A sentence has a field `n` exactly when it holds at least `n` commas:
/// field 0 always exists, and every comma starts one more field.
pub proof fn lemma_nth_field_exists_iff_commas(s: Seq<u8>, n: nat)
    ensures
        nth_field(s, n) is Some <==> comma_count(s) >= n,
    decreases n,
{
    lemma_first_index_of(s, COMMA);
    let k = first_index_of(s, COMMA);
    if k < s.len() {
        let head = s.take(k as int);
        let tail = s.skip(k + 1 as int);
        assert(s =~= head + seq![COMMA] + tail);
        lemma_comma_count_zero(head);
        lemma_comma_count_concat(head, seq![COMMA]);
        lemma_comma_count_concat(head + seq![COMMA], tail);
        assert(seq![COMMA].drop_last() =~= Seq::<u8>::empty());
        assert(comma_count(Seq::<u8>::empty()) == 0);
        assert(seq![COMMA].last() == COMMA);
        assert(comma_count(seq![COMMA]) == 1);
        if n > 0 {
            lemma_nth_field_after_comma(s, n);
            lemma_nth_field_exists_iff_commas(tail, (n - 1) as nat);
        }
    } else {
        assert forall|i: int| 0 <= i < s.len() implies s[i] != COMMA by {}
        lemma_comma_count_zero(s);
    }
}

/// Where field `n` lies: it starts at the beginning or just after a comma,
/// exactly `n` commas come before it, it holds no comma, and it ends at
/// the end of the sentence or at a comma.
pub proof fn lemma_field_span_between_commas(s: Seq<u8>, n: nat)
    ensures
        field_span(s, n) matches Some((a, b)) ==> {
            &&& a <= b <= s.len()
            &&& comma_count(s.take(a as int)) == n
            &&& a == 0 || s[a - 1] == COMMA
            &&& forall|i: int| a <= i < b ==> s[i] != COMMA
            &&& b == s.len() || s[b as int] == COMMA
        },
    decreases n,
{
    lemma_first_index_of(s, COMMA);
    let k = first_index_of(s, COMMA);
    if n == 0 {
        assert(s.take(0) =~= Seq::<u8>::empty());
    } else if k < s.len() {
        let t = s.skip(k + 1 as int);
        lemma_field_span_between_commas(t, (n - 1) as nat);
        if let Some((a2, b2)) = field_span(t, (n - 1) as nat) {
            let a = a2 + k + 1;
            let head = s.take(k as int);
            assert(s.take(a as int) =~= head + seq![COMMA] + t.take(a2 as int));
            assert forall|i: int| 0 <= i < head.len() implies head[i] != COMMA by {}
            lemma_comma_count_zero(head);
            lemma_comma_count_concat(head, seq![COMMA]);
            lemma_comma_count_concat(head + seq![COMMA], t.take(a2 as int));
            assert(seq![COMMA].drop_last() =~= Seq::<u8>::empty());
            assert(comma_count(Seq::<u8>::empty()) == 0);
            assert(comma_count(seq![COMMA]) == 1);
            if a2 > 0 {
                assert(s[a - 1] == t[a2 - 1]);
            }
            assert forall|i: int| a <= i < b2 + k + 1 implies s[i] != COMMA by {
                assert(s[i] == t[i - k - 1]);
            }
            if b2 < t.len() {
                assert(s[(b2 + k + 1) as int] == t[b2 as int]);
            }
        }
    }
}

/// Comma-free fields joined with commas, the first one first.
pub open spec fn join_fields(fields: Seq<Seq<u8>>) -> Seq<u8>
    decreases fields.len(),
{
    if fields.len() <= 1 {
        if fields.len() == 1 { fields[0] } else { Seq::empty() }
    } else {
        fields[0] + seq![COMMA] + join_fields(fields.drop_first())
    }
}

/// Splitting at commas undoes joining with commas: for any one or more
/// fields none of which holds a comma, field `n` of the joined sentence is
/// the `n`-th field, and there is no field past the last.
pub proof fn lemma_nth_field_of_joined(fields: Seq<Seq<u8>>, n: nat)
    requires
        fields.len() >= 1,
        forall|i: int, j: int| 0 <= i < fields.len() && 0 <= j < fields[i].len() ==> #[trigger] fields[i][j] != COMMA,
    ensures
        nth_field(join_fields(fields), n) == if n < fields.len() { Some(fields[n as int]) } else { None::<Seq<u8>> },
    decreases fields.len(),
{
    let s = join_fields(fields);
    let f0 = fields[0];
    if fields.len() == 1 {
        assert forall|i: int| 0 <= i < f0.len() implies f0[i] != COMMA by {
            assert(fields[0][i] != COMMA);
        }
        lemma_first_index_of_unique(f0, COMMA, f0.len() as int);
        assert(f0.subrange(0, f0.len() as int) =~= f0);
    } else {
        let rest = fields.drop_first();
        assert(s =~= f0 + seq![COMMA] + join_fields(rest));
        assert forall|i: int| 0 <= i < f0.len() implies s[i] != COMMA by {
            assert(fields[0][i] != COMMA);
        }
        lemma_first_index_of_unique(s, COMMA, f0.len() as int);
        assert(s.subrange(0, f0.len() as int) =~= f0);
        if n > 0 {
            lemma_nth_field_after_comma(s, n);
            assert(s.skip(f0.len() + 1 as int) =~= join_fields(rest));
            assert forall|i: int, j: int| 0 <= i < rest.len() && 0 <= j < rest[i].len() implies #[trigger] rest[i][j] != COMMA by {
                assert(rest[i] == fields[i + 1]);
            }
            lemma_nth_field_of_joined(rest, (n - 1) as nat);
        }
    }
}

} // verus!
