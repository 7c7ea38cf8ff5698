use vstd::prelude::*;

verus! {

/// The fields of `s` between occurrences of `sep`, in order: one more field
/// than there are separators, and an empty field wherever two separators
/// meet, or one starts or ends the text.
pub open spec fn split_bytes(s: Seq<u8>, sep: u8) -> Seq<Seq<u8>>
    decreases s.len(),
{
    if s.len() == 0 {
        seq![Seq::<u8>::empty()]
    } else if s[0] == sep {
        seq![Seq::<u8>::empty()] + split_bytes(s.drop_first(), sep)
    } else {
        let rest = split_bytes(s.drop_first(), sep);
        seq![seq![s[0]] + rest[0]] + rest.drop_first()
    }
}

/// Splitting always yields at least one field.
pub proof fn lemma_split_bytes_len(s: Seq<u8>, sep: u8)
    ensures
        split_bytes(s, sep).len() >= 1,
    decreases s.len(),
{
    if s.len() > 0 {
        lemma_split_bytes_len(s.drop_first(), sep);
    }
}

/// Where the first separator stands at `j` (or nowhere, `j == s.len()`), the
/// split is the text up to `j` followed by the split of what comes after it.
pub proof fn lemma_split_bytes_at_first_sep(s: Seq<u8>, sep: u8, j: int)
    requires
        0 <= j <= s.len(),
        forall|i: int| 0 <= i < j ==> s[i] != sep,
        j < s.len() ==> s[j] == sep,
    ensures
        j == s.len() ==> split_bytes(s, sep) == seq![s],
        j < s.len() ==> split_bytes(s, sep) == seq![s.take(j)] + split_bytes(s.skip(j + 1), sep),
    decreases j,
{
    lemma_split_bytes_len(s, sep);
    if j == 0 {
        if s.len() == 0 {
            assert(s =~= Seq::<u8>::empty());
        } else {
            assert(s.take(0) =~= Seq::<u8>::empty());
            assert(s.skip(1) =~= s.drop_first());
            assert(split_bytes(s, sep) =~= seq![s.take(0)] + split_bytes(s.skip(1), sep));
        }
    } else {
        let rest = s.drop_first();
        lemma_split_bytes_len(rest, sep);
        assert(forall|i: int| 0 <= i < j - 1 ==> rest[i] != sep);
        lemma_split_bytes_at_first_sep(rest, sep, j - 1);
        if j == s.len() {
            assert(seq![s[0]] + rest =~= s);
            assert(split_bytes(s, sep) =~= seq![s]);
        } else {
            assert(seq![s[0]] + rest.take(j - 1) =~= s.take(j));
            assert(rest.skip(j - 1 + 1) =~= s.skip(j + 1));
            assert(split_bytes(s, sep) =~= seq![s.take(j)] + split_bytes(s.skip(j + 1), sep));
        }
    }
}

/// The views of a vector of byte vectors.
pub open spec fn byte_views(parts: Seq<Vec<u8>>) -> Seq<Seq<u8>> {
    parts.map_values(|p: Vec<u8>| p@)
}

/// Splits `line` at every occurrence of `sep`, exactly as `split_bytes` says.
pub fn split_on(line: &Vec<u8>, sep: u8) -> (parts: Vec<Vec<u8>>)
    ensures
        byte_views(parts@) == split_bytes(line@, sep),
        parts@.len() >= 1,
{
    let mut parts: Vec<Vec<u8>> = Vec::new();
    let mut start: usize = 0;
    proof {
        assert(line@.skip(0) =~= line@);
        assert(byte_views(parts@) + split_bytes(line@, sep) =~= split_bytes(line@, sep));
    }
    loop
        invariant_except_break
            start <= line@.len(),
            split_bytes(line@, sep) == byte_views(parts@) + split_bytes(
                line@.skip(start as int),
                sep,
            ),
        ensures
            byte_views(parts@) == split_bytes(line@, sep),
            parts@.len() >= 1,
        decreases line@.len() - start,
    {
        let mut j: usize = start;
        while j < line.len() && line[j] != sep
            invariant
                start <= j <= line@.len(),
                forall|i: int| start <= i < j ==> line@[i] != sep,
            decreases line@.len() - j,
        {
            j += 1;
        }
        let mut part: Vec<u8> = Vec::new();
        let mut k: usize = start;
        while k < j
            invariant
                start <= k <= j <= line@.len(),
                part@ == line@.subrange(start as int, k as int),
            decreases j - k,
        {
            part.push(line[k]);
            k += 1;
        }
        proof {
            lemma_split_bytes_at_first_sep(line@.skip(start as int), sep, j - start);
            assert(line@.skip(start as int).take(j - start) =~= line@.subrange(
                start as int,
                j as int,
            ));
            assert(byte_views(parts@.push(part)) =~= byte_views(parts@).push(part@));
        }
        if j == line.len() {
            proof {
                assert(line@.skip(start as int) =~= line@.subrange(start as int, j as int));
                assert(byte_views(parts@).push(part@) =~= byte_views(parts@) + seq![part@]);
                assert(byte_views(parts@) + seq![line@.skip(start as int)] =~= split_bytes(
                    line@,
                    sep,
                ));
            }
            parts.push(part);
            break;
        }
        proof {
            assert(line@.skip(start as int).skip(j - start + 1) =~= line@.skip(j + 1));
            assert(byte_views(parts@).push(part@) + split_bytes(line@.skip(j + 1), sep)
                =~= byte_views(parts@) + (seq![line@.skip(start as int).take(j - start)]
                + split_bytes(line@.skip(start as int).skip(j - start + 1), sep)));
        }
        parts.push(part);
        start = j + 1;
    }
    parts
}

/// Whether `b` is a decimal digit.
pub open spec fn is_dec_digit(b: u8) -> bool {
    0x30 <= b <= 0x39
}

/// The numeric value of decimal digit text, most significant digit first.
pub open spec fn dec_value(s: Seq<u8>) -> int
    decreases s.len(),
{
    if s.len() == 0 {
        0
    } else {
        dec_value(s.drop_last()) * 10 + (s.last() - 0x30)
    }
}

/// The digits of `s` after an optional leading `+` sign.
pub open spec fn dec_digits_of(s: Seq<u8>) -> Seq<u8> {
    if s.len() > 0 && s[0] == 0x2b {
        s.drop_first()
    } else {
        s
    }
}

/// Whether `s` reads as a `u64`: an optional `+` sign, then at least one
/// decimal digit and nothing else, with a value that fits.
pub open spec fn reads_as_u64(s: Seq<u8>) -> bool {
    let d = dec_digits_of(s);
    &&& d.len() > 0
    &&& forall|i: int| 0 <= i < d.len() ==> is_dec_digit(d[i])
    &&& dec_value(d) <= u64::MAX
}

/// The timestamp a field yields: its numeric reading, or zero where it has
/// none.
pub open spec fn timestamp_of(s: Seq<u8>) -> u64 {
    if reads_as_u64(s) {
        dec_value(dec_digits_of(s)) as u64
    } else {
        0
    }
}

/// Digit text never has a negative value.
pub proof fn lemma_dec_value_nonneg(d: Seq<u8>)
    requires
        forall|i: int| 0 <= i < d.len() ==> is_dec_digit(d[i]),
    ensures
        dec_value(d) >= 0,
    decreases d.len(),
{
    if d.len() > 0 {
        assert(forall|i: int| 0 <= i < d.drop_last().len() ==> is_dec_digit(d.drop_last()[i]));
        lemma_dec_value_nonneg(d.drop_last());
    }
}

/// A prefix of digit text never has a larger value than the whole.
pub proof fn lemma_dec_value_prefix_le(d: Seq<u8>, k: int)
    requires
        0 <= k <= d.len(),
        forall|i: int| 0 <= i < d.len() ==> is_dec_digit(d[i]),
    ensures
        dec_value(d.take(k)) <= dec_value(d),
    decreases d.len() - k,
{
    if k == d.len() {
        assert(d.take(k) =~= d);
    } else {
        let head = d.drop_last();
        assert(forall|i: int| 0 <= i < head.len() ==> is_dec_digit(head[i]));
        assert(head.take(k) =~= d.take(k));
        lemma_dec_value_prefix_le(head, k);
        lemma_dec_value_nonneg(head);
    }
}

/// Reads `field` as a `u64` — an optional `+` sign and decimal digits — and
/// falls back to zero where the text is not such a number or does not fit.
pub fn parse_u64_or_zero(field: &Vec<u8>) -> (n: u64)
    ensures
        n == timestamp_of(field@),
{
    let ghost d: Seq<u8> = dec_digits_of(field@);
    let mut i: usize = 0;
    if field.len() > 0 && field[0] == 0x2b {
        i = 1;
    }
    let ghost sign: int = i as int;
    proof {
        assert(d =~= field@.skip(sign));
    }
    if i == field.len() {
        return 0;
    }
    let mut acc: u64 = 0;
    while i < field.len()
        invariant
            0 <= sign <= 1,
            sign <= i as int <= field@.len(),
            d == dec_digits_of(field@),
            d == field@.skip(sign),
            sign < field@.len(),
            forall|t: int| 0 <= t < i - sign ==> is_dec_digit(d[t]),
            acc == dec_value(d.take(i - sign)),
        decreases field@.len() - i,
    {
        let b = field[i];
        proof {
            assert(field@.skip(sign)[i - sign] == field@[i as int]);
        }
        if b < 0x30 || b > 0x39 {
            return 0;
        }
        proof {
            assert(d.take(i - sign + 1).drop_last() =~= d.take(i - sign));
            assert(d.take(i - sign + 1).last() == d[i - sign]);
            assert(forall|t: int| 0 <= t < i - sign + 1 ==> is_dec_digit(d[t]));
        }
        let shifted = match acc.checked_mul(10) {
            Some(v) => v,
            None => {
                proof {
                    if forall|t: int| 0 <= t < d.len() ==> is_dec_digit(d[t]) {
                        lemma_dec_value_prefix_le(d, i - sign + 1);
                    }
                }
                return 0;
            },
        };
        acc = match shifted.checked_add((b - 0x30) as u64) {
            Some(v) => v,
            None => {
                proof {
                    if forall|t: int| 0 <= t < d.len() ==> is_dec_digit(d[t]) {
                        lemma_dec_value_prefix_le(d, i - sign + 1);
                    }
                }
                return 0;
            },
        };
        i += 1;
    }
    proof {
        assert(d.take(d.len() as int) =~= d);
    }
    acc
}

/// One parsed log line: a numeric timestamp and the remaining fields as
/// tags, kept as the bytes that stood in the line.
pub struct LogEntry {
    pub timestamp: u64,
    pub tags: Vec<Vec<u8>>,
}

impl View for LogEntry {
    type V = (u64, Seq<Seq<u8>>);

    open spec fn view(&self) -> (u64, Seq<Seq<u8>>) {
        (self.timestamp, byte_views(self.tags@))
    }
}

/// The entries a sequence of lines yields, in order: a line with at least
/// two comma-separated fields yields one entry — its first field read as a
/// timestamp with zero as the fallback, the remaining fields as tags — and
/// any other line yields none.
pub open spec fn log_entries(lines: Seq<Seq<u8>>) -> Seq<(u64, Seq<Seq<u8>>)>
    decreases lines.len(),
{
    if lines.len() == 0 {
        Seq::empty()
    } else {
        let fields = split_bytes(lines.last(), 0x2c);
        log_entries(lines.drop_last()) + (if fields.len() >= 2 {
            seq![(timestamp_of(fields[0]), fields.skip(1))]
        } else {
            Seq::empty()
        })
    }
}

/// The views of the produced entries.
pub open spec fn entry_views(entries: Seq<LogEntry>) -> Seq<(u64, Seq<Seq<u8>>)> {
    entries.map_values(|e: LogEntry| e@)
}

/// Splits each line at commas and keeps every line with at least two
/// fields as an entry, exactly as `log_entries` says of the lines' bytes.
pub fn parse_log(lines: &Vec<Vec<u8>>) -> (entries: Vec<LogEntry>)
    ensures
        entry_views(entries@) == log_entries(byte_views(lines@)),
{
    let mut entries: Vec<LogEntry> = Vec::new();
    let mut li: usize = 0;
    proof {
        assert(byte_views(lines@).take(0) =~= Seq::<Seq<u8>>::empty());
        assert(entry_views(entries@) =~= Seq::<(u64, Seq<Seq<u8>>)>::empty());
    }
    while li < lines.len()
        invariant
            li <= lines@.len(),
            entry_views(entries@) == log_entries(byte_views(lines@).take(li as int)),
        decreases lines@.len() - li,
    {
        let ghost lv: Seq<Seq<u8>> = byte_views(lines@);
        let ghost before: Seq<(u64, Seq<Seq<u8>>)> = entry_views(entries@);
        proof {
            assert(lv.take(li + 1).drop_last() =~= lv.take(li as int));
            assert(lv.take(li + 1).last() == lv[li as int]);
            assert(lv[li as int] == lines@[li as int]@);
        }
        let mut parts = split_on(&lines[li], 0x2c);
        if parts.len() >= 2 {
            let ghost fields: Seq<Seq<u8>> = byte_views(parts@);
            let first = parts.remove(0);
            proof {
                assert(first@ == fields[0]);
                assert(byte_views(parts@) =~= fields.skip(1));
            }
            let timestamp = parse_u64_or_zero(&first);
            entries.push(LogEntry { timestamp, tags: parts });
            proof {
                assert(entry_views(entries@) =~= before.push(
                    (timestamp_of(fields[0]), fields.skip(1)),
                ));
                assert(before.push((timestamp_of(fields[0]), fields.skip(1))) =~= before + seq![
                    (timestamp_of(fields[0]), fields.skip(1)),
                ]);
            }
        } else {
            proof {
                assert(before + Seq::<(u64, Seq<Seq<u8>>)>::empty() =~= before);
            }
        }
        li += 1;
    }
    proof {
        assert(byte_views(lines@).take(lines@.len() as int) =~= byte_views(lines@));
    }
    entries
}

} // verus!
