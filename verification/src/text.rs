//! Text as sequences of characters: decimal and hexadecimal numerals, searching, splitting and
//! joining.
use vstd::arithmetic::power::{lemma_pow0, lemma_pow_adds, pow};
use vstd::prelude::*;

verus! {

/// `String::push` appends one character and leaves the rest of the string as it was.
pub assume_specification[ String::push ](s: &mut String, c: char)
    ensures
        final(s)@ == old(s)@.push(c),
;

/// The decimal digit for `d`, which is below ten.
pub open spec fn digit(d: nat) -> char {
    ('0' as nat + d) as char
}

pub open spec fn is_digit(c: char) -> bool {
    '0' <= c <= '9'
}

/// The decimal numeral of `n`, without leading zeros.
pub open spec fn decimal(n: nat) -> Seq<char>
    decreases n,
{
    if n < 10 {
        seq![digit(n)]
    } else {
        decimal(n / 10).push(digit(n % 10))
    }
}

pub open spec fn is_digits(s: Seq<char>) -> bool {
    forall|i: int| 0 <= i < s.len() ==> is_digit(#[trigger] s[i])
}

/// The number that a string of decimal digits stands for, leading zeros allowed.
pub open spec fn digits_value(s: Seq<char>) -> nat
    decreases s.len(),
{
    if s.len() == 0 {
        0
    } else {
        digits_value(s.drop_last()) * 10 + (s.last() as nat - '0' as nat) as nat
    }
}

/// What is left of `s` behind one optional leading plus sign.
pub open spec fn unsigned_part(s: Seq<char>) -> Seq<char> {
    if s.len() > 0 && s[0] == '+' {
        s.skip(1)
    } else {
        s
    }
}

/// The number that `s` names: an optional plus sign and one or more decimal digits whose value
/// fits in 64 bits.
pub open spec fn number(s: Seq<char>) -> Option<u64> {
    let digits = unsigned_part(s);
    if digits.len() > 0 && is_digits(digits) && digits_value(digits) <= u64::MAX {
        Some(digits_value(digits) as u64)
    } else {
        None
    }
}

/// The lower-case hexadecimal digit for `d`, which is below sixteen.
pub open spec fn hex_digit(d: nat) -> char {
    if d < 10 {
        digit(d)
    } else {
        ('a' as nat + (d - 10)) as char
    }
}

/// Two lower-case hexadecimal digits for each byte, the high half first.
pub open spec fn hex(bytes: Seq<u8>) -> Seq<char> {
    Seq::new(
        2 * bytes.len(),
        |i: int|
            hex_digit(
                if i % 2 == 0 {
                    bytes[i / 2] as nat / 16
                } else {
                    bytes[i / 2] as nat % 16
                },
            ),
    )
}

/// `part` stands in `s` from position `at` on.
pub open spec fn stands_at(s: Seq<char>, part: Seq<char>, at: int) -> bool {
    0 <= at <= s.len() - part.len() && s.subrange(at, at + part.len()) == part
}

/// `part` stands somewhere in `s`.
pub open spec fn holds(s: Seq<char>, part: Seq<char>) -> bool {
    exists|at: int| stands_at(s, part, at)
}

/// The pieces of `s` between the occurrences of `delimiter`. There is always at least one.
pub open spec fn split(s: Seq<char>, delimiter: char) -> Seq<Seq<char>>
    decreases s.len(),
{
    if s.len() == 0 {
        seq![Seq::empty()]
    } else {
        let pieces = split(s.drop_last(), delimiter);
        if s.last() == delimiter {
            pieces.push(Seq::empty())
        } else {
            pieces.drop_last().push(pieces.last().push(s.last()))
        }
    }
}

/// The parts one after the other, with `separator` between two neighbours.
pub open spec fn joined(parts: Seq<Seq<char>>, separator: char) -> Seq<char>
    decreases parts.len(),
{
    if parts.len() == 0 {
        Seq::empty()
    } else if parts.len() == 1 {
        parts[0]
    } else {
        joined(parts.drop_last(), separator).push(separator) + parts.last()
    }
}

/// The views of a vector of strings.
pub open spec fn views(strings: Seq<String>) -> Seq<Seq<char>> {
    strings.map_values(|s: String| s@)
}

/// Puts the decimal numeral of `n` behind `out`.
pub fn push_decimal(out: &mut String, n: u64)
    ensures
        final(out)@ == old(out)@ + decimal(n as nat),
    decreases n,
{
    if n >= 10 {
        push_decimal(out, n / 10);
    }
    out.push((48u8 + (n % 10) as u8) as char);
}

/// The decimal numeral of `n`.
pub fn decimal_string(n: u64) -> (res: String)
    ensures
        res@ == decimal(n as nat),
{
    let mut out = String::new();
    push_decimal(&mut out, n);
    out
}

/// The characters of `s`.
pub fn chars_of(s: &str) -> (res: Vec<char>)
    ensures
        res@ == s@,
{
    let mut out: Vec<char> = Vec::new();
    for c in iter: s.chars()
        invariant
            iter.seq() == s@,
            out@ == s@.take(iter.index()),
    {
        out.push(c);
    }
    out
}

/// A decimal numeral is a non-empty run of digits that stands for its number.
pub proof fn lemma_decimal(n: nat)
    ensures
        decimal(n).len() > 0,
        is_digits(decimal(n)),
        digits_value(decimal(n)) == n,
    decreases n,
{
    if n < 10 {
        assert(decimal(n).drop_last() == Seq::<char>::empty());
        assert(digits_value(Seq::<char>::empty()) == 0);
    } else {
        lemma_decimal(n / 10);
        assert(decimal(n).drop_last() == decimal(n / 10));
    }
}

/// A number reads back from its decimal numeral.
pub proof fn decimal_reads_back(n: u64)
    ensures
        number(decimal(n as nat)) == Some(n),
{
    lemma_decimal(n as nat);
    assert(is_digit(decimal(n as nat)[0]));
}

/// Joining undoes splitting.
pub proof fn split_then_joined(s: Seq<char>, delimiter: char)
    ensures
        split(s, delimiter).len() > 0,
        joined(split(s, delimiter), delimiter) == s,
    decreases s.len(),
{
    if s.len() > 0 {
        let front = split(s.drop_last(), delimiter);
        split_then_joined(s.drop_last(), delimiter);
        if s.last() == delimiter {
            assert(front.push(Seq::empty()).drop_last() == front);
            assert(joined(front, delimiter).push(delimiter) + Seq::empty() == s);
        } else {
            let longer = front.drop_last().push(front.last().push(s.last()));
            assert(longer.drop_last() == front.drop_last());
            assert(joined(longer, delimiter) == joined(front, delimiter).push(s.last()));
            assert(s.drop_last().push(s.last()) == s);
        }
    }
}

/// No piece of a split holds the delimiter.
pub proof fn split_pieces_lack_delimiter(s: Seq<char>, delimiter: char)
    ensures
        forall|i: int|
            0 <= i < split(s, delimiter).len() ==> !(#[trigger] split(s, delimiter)[i]).contains(
                delimiter,
            ),
    decreases s.len(),
{
    if s.len() > 0 {
        let front = split(s.drop_last(), delimiter);
        split_then_joined(s.drop_last(), delimiter);
        split_pieces_lack_delimiter(s.drop_last(), delimiter);
        let all = split(s, delimiter);
        assert forall|i: int| 0 <= i < all.len() implies !(#[trigger] all[i]).contains(
            delimiter,
        ) by {
            if i < front.len() - 1 {
                assert(all[i] == front[i]);
            } else if s.last() != delimiter {
                let last = front.last();
                assert(all[i] == last.push(s.last()));
                assert(!last.contains(delimiter));
                if all[i].contains(delimiter) {
                    let k = choose|k: int| 0 <= k < all[i].len() && all[i][k] == delimiter;
                    assert(last[k] == delimiter);
                }
            } else if i < front.len() {
                assert(all[i] == front[i]);
            }
        }
    }
}

/// Splitting a string that ends in `delimiter` and a run without it.
proof fn lemma_split_tail(s: Seq<char>, tail: Seq<char>, delimiter: char)
    requires
        !tail.contains(delimiter),
    ensures
        split(s.push(delimiter) + tail, delimiter) == split(s, delimiter).push(tail),
    decreases tail.len(),
{
    let whole = s.push(delimiter) + tail;
    if tail.len() == 0 {
        assert(whole.drop_last() == s);
        assert(tail == Seq::<char>::empty());
    } else {
        let shorter = tail.drop_last();
        assert forall|k: int| 0 <= k < shorter.len() implies shorter[k] != delimiter by {
            assert(tail[k] == shorter[k]);
        }
        lemma_split_tail(s, shorter, delimiter);
        assert(whole.drop_last() == s.push(delimiter) + shorter);
        assert(whole.last() == tail.last());
        assert(tail.contains(tail.last()));
        assert(shorter.push(tail.last()) == tail);
        assert(split(s, delimiter).push(shorter).drop_last() == split(s, delimiter));
    }
}

/// A string without the delimiter is one piece.
pub proof fn lemma_split_whole(s: Seq<char>, delimiter: char)
    requires
        !s.contains(delimiter),
    ensures
        split(s, delimiter) == seq![s],
    decreases s.len(),
{
    if s.len() == 0 {
        assert(s == Seq::<char>::empty());
    } else {
        let shorter = s.drop_last();
        assert forall|k: int| 0 <= k < shorter.len() implies shorter[k] != delimiter by {
            assert(s[k] == shorter[k]);
        }
        lemma_split_whole(shorter, delimiter);
        assert(s.contains(s.last()));
        assert(shorter.push(s.last()) == s);
        assert(seq![shorter].drop_last() == Seq::<Seq<char>>::empty());
    }
}

/// Splitting undoes joining, as long as no part holds the separator.
pub proof fn joined_then_split(parts: Seq<Seq<char>>, separator: char)
    requires
        parts.len() > 0,
        forall|i: int| 0 <= i < parts.len() ==> !(#[trigger] parts[i]).contains(separator),
    ensures
        split(joined(parts, separator), separator) == parts,
    decreases parts.len(),
{
    if parts.len() == 1 {
        lemma_split_whole(parts[0], separator);
        assert(seq![parts[0]] == parts);
    } else {
        let front = parts.drop_last();
        assert forall|i: int| 0 <= i < front.len() implies !(#[trigger] front[i]).contains(
            separator,
        ) by {
            assert(front[i] == parts[i]);
        }
        joined_then_split(front, separator);
        lemma_split_tail(joined(front, separator), parts.last(), separator);
        assert(front.push(parts.last()) == parts);
    }
}

/// A character that is in no part and is not the separator is not in the whole.
pub proof fn lemma_joined_lacks(parts: Seq<Seq<char>>, separator: char, c: char)
    requires
        c != separator,
        forall|i: int| 0 <= i < parts.len() ==> !(#[trigger] parts[i]).contains(c),
    ensures
        !joined(parts, separator).contains(c),
    decreases parts.len(),
{
    if parts.len() > 1 {
        let front = parts.drop_last();
        assert forall|i: int| 0 <= i < front.len() implies !(#[trigger] front[i]).contains(c) by {
            assert(front[i] == parts[i]);
        }
        lemma_joined_lacks(front, separator, c);
        let start = joined(front, separator);
        let whole = joined(parts, separator);
        if whole.contains(c) {
            let k = choose|k: int| 0 <= k < whole.len() && whole[k] == c;
            if k < start.len() {
                assert(start[k] == c);
            } else if k > start.len() {
                assert(parts.last()[k - start.len() - 1] == c);
            }
        }
    }
}

/// The whole starts as its first part does.
pub proof fn lemma_joined_first(parts: Seq<Seq<char>>, separator: char)
    requires
        parts.len() > 0,
        parts[0].len() > 0,
    ensures
        joined(parts, separator).len() > 0,
        joined(parts, separator)[0] == parts[0][0],
    decreases parts.len(),
{
    if parts.len() > 1 {
        assert(parts.drop_last()[0] == parts[0]);
        lemma_joined_first(parts.drop_last(), separator);
    }
}

/// A longer run of digits stands for no smaller a number.
proof fn lemma_prefix_value(s: Seq<char>, len: int)
    requires
        0 <= len <= s.len(),
    ensures
        digits_value(s.take(len)) <= digits_value(s),
    decreases s.len(),
{
    if len == s.len() {
        assert(s.take(len) == s);
    } else {
        lemma_prefix_value(s.drop_last(), len);
        assert(s.drop_last().take(len) == s.take(len));
    }
}

/// The number that `s` names, as `str::parse::<u64>` reads it.
pub fn parse_number(s: &str) -> (res: Option<u64>)
    ensures
        res == number(s@),
{
    let chars = chars_of(s);
    let start: usize = if chars.len() > 0 && chars[0] == '+' {
        1
    } else {
        0
    };
    let ghost digits = unsigned_part(s@);
    assert(digits == chars@.skip(start as int));
    if start == chars.len() {
        return None;
    }
    let mut value: u64 = 0;
    let mut i: usize = start;
    while i < chars.len()
        invariant
            start <= i <= chars.len(),
            digits == chars@.skip(start as int),
            digits == unsigned_part(s@),
            is_digits(digits.take(i - start)),
            value == digits_value(digits.take(i - start)),
        decreases chars.len() - i,
    {
        let c = chars[i];
        assert(digits[i - start] == c);
        if !('0' <= c && c <= '9') {
            return None;
        }
        let d: u64 = (c as u32 - 48) as u64;
        let ghost next = digits.take(i + 1 - start);
        assert(next.drop_last() == digits.take(i - start));
        assert(digits_value(next) == value * 10 + d);
        if value > (u64::MAX - d) / 10 {
            proof {
                lemma_prefix_value(digits, i + 1 - start);
            }
            return None;
        }
        value = value * 10 + d;
        i += 1;
    }
    assert(digits.take(i - start) == digits);
    Some(value)
}

/// Puts the two hexadecimal digits of `byte` behind `out`.
fn push_hex(out: &mut String, byte: u8)
    ensures
        final(out)@ == old(out)@.push(hex_digit(byte as nat / 16)).push(hex_digit(byte as nat % 16)),
{
    let high: u8 = byte / 16;
    let low: u8 = byte % 16;
    out.push((if high < 10 { 48 + high } else { 87 + high }) as char);
    out.push((if low < 10 { 48 + low } else { 87 + low }) as char);
}

/// The lower-case hexadecimal form of `bytes`.
pub fn hex_string(bytes: &[u8]) -> (res: String)
    ensures
        res@ == hex(bytes@),
{
    let mut out = String::new();
    let mut i: usize = 0;
    while i < bytes.len()
        invariant
            i <= bytes.len(),
            out@ == hex(bytes@.take(i as int)),
        decreases bytes.len() - i,
    {
        let ghost before = out@;
        push_hex(&mut out, bytes[i]);
        assert(out@ == hex(bytes@.take(i + 1))) by {
            assert forall|k: int| 0 <= k < before.len() implies before[k] == #[trigger] hex(
                bytes@.take(i + 1),
            )[k] by {
                assert(bytes@.take(i as int)[k / 2] == bytes@.take(i + 1)[k / 2]);
            }
        }
        i += 1;
    }
    assert(bytes@.take(i as int) == bytes@);
    out
}

/// Whether `part` stands in `s` from position `at` on.
fn found_at(s: &Vec<char>, part: &Vec<char>, at: usize) -> (res: bool)
    requires
        at + part.len() <= s.len(),
    ensures
        res == stands_at(s@, part@, at as int),
{
    let mut k: usize = 0;
    while k < part.len()
        invariant
            k <= part.len(),
            at + part.len() <= s.len(),
            forall|j: int| 0 <= j < k ==> s@[at + j] == part@[j],
        decreases part.len() - k,
    {
        if s[at + k] != part[k] {
            assert(s@.subrange(at as int, at + part.len())[k as int] == s@[at + k]);
            return false;
        }
        k += 1;
    }
    assert(s@.subrange(at as int, at + part.len()) == part@);
    true
}

/// Whether `part` stands somewhere in `s`.
pub fn contains(s: &str, part: &str) -> (res: bool)
    ensures
        res == holds(s@, part@),
{
    let text = chars_of(s);
    let wanted = chars_of(part);
    let mut at: usize = 0;
    while at <= text.len() && wanted.len() <= text.len() - at
        invariant
            text@ == s@,
            wanted@ == part@,
            forall|k: int| 0 <= k < at ==> !stands_at(s@, part@, k),
        decreases text.len() + 1 - at,
    {
        if found_at(&text, &wanted, at) {
            return true;
        }
        if at == text.len() {
            return false;
        }
        at += 1;
    }
    false
}

/// The pieces of `s` between the occurrences of `delimiter`.
pub fn split_at_each(s: &str, delimiter: char) -> (res: Vec<Vec<char>>)
    ensures
        res@.map_values(|piece: Vec<char>| piece@) == split(s@, delimiter),
{
    let chars = chars_of(s);
    let mut pieces: Vec<Vec<char>> = Vec::new();
    let mut piece: Vec<char> = Vec::new();
    let mut i: usize = 0;
    let ghost view = |piece: Vec<char>| piece@;
    while i < chars.len()
        invariant
            i <= chars.len(),
            view == (|piece: Vec<char>| piece@),
            pieces@.map_values(view).push(piece@) == split(chars@.take(i as int), delimiter),
        decreases chars.len() - i,
    {
        let c = chars[i];
        assert(chars@.take(i + 1).drop_last() == chars@.take(i as int));
        let ghost before = pieces@.map_values(view);
        assert(before.push(piece@).drop_last() == before);
        if c == delimiter {
            let ghost done = piece@;
            pieces.push(piece);
            piece = Vec::new();
            assert(pieces@.map_values(view) == before.push(done));
        } else {
            piece.push(c);
        }
        i += 1;
    }
    let ghost before = pieces@.map_values(view);
    let ghost done = piece@;
    pieces.push(piece);
    assert(pieces@.map_values(view) == before.push(done));
    assert(chars@.take(i as int) == chars@);
    pieces
}

/// The parts one after the other, with `separator` between two neighbours.
pub fn join(parts: &Vec<String>, separator: char) -> (res: String)
    ensures
        res@ == joined(views(parts@), separator),
{
    let mut out = String::new();
    let mut i: usize = 0;
    while i < parts.len()
        invariant
            i <= parts.len(),
            out@ == joined(views(parts@).take(i as int), separator),
        decreases parts.len() - i,
    {
        assert(views(parts@).take(i + 1).drop_last() == views(parts@).take(i as int));
        if i > 0 {
            out.push(separator);
        }
        out.append(parts[i].as_str());
        i += 1;
    }
    assert(views(parts@).take(i as int) == views(parts@));
    out
}

/// What a filter keeps of two parts.
pub proof fn lemma_filter_parts<A>(a: Seq<A>, b: Seq<A>, keep: spec_fn(A) -> bool)
    ensures
        (a + b).filter(keep) == a.filter(keep) + b.filter(keep),
    decreases b.len(),
{
    reveal(Seq::filter);
    if b.len() == 0 {
        assert(a + b =~= a);
        assert(b.filter(keep) =~= Seq::<A>::empty());
        assert(a.filter(keep) + b.filter(keep) =~= a.filter(keep));
    } else {
        lemma_filter_parts(a, b.drop_last(), keep);
        assert((a + b).drop_last() =~= a + b.drop_last());
        assert((a + b).filter(keep) =~= a.filter(keep) + b.filter(keep));
    }
}

/// The number that a hexadecimal digit stands for.
pub open spec fn hex_value(c: char) -> int {
    if '0' <= c <= '9' {
        c as int - '0' as int
    } else {
        c as int - 'a' as int + 10
    }
}

/// Each byte reads back from its two hexadecimal digits, which are lower-case. So different bytes
/// have different forms.
pub proof fn hex_reads_back(bytes: Seq<u8>, i: int)
    requires
        0 <= i < bytes.len(),
    ensures
        hex(bytes).len() == 2 * bytes.len(),
        bytes[i] == 16 * hex_value(hex(bytes)[2 * i]) + hex_value(hex(bytes)[2 * i + 1]),
        forall|k: int|
            0 <= k < hex(bytes).len() ==> '0' <= (#[trigger] hex(bytes)[k]) <= '9' || 'a' <= hex(
                bytes,
            )[k] <= 'f',
{
    assert((2 * i) / 2 == i && (2 * i + 1) / 2 == i);
}

/// The value of a run of digits is that of its first part, shifted by the length of the second, and
/// that of the second. One digit stands for itself.
pub proof fn digits_have_places(a: Seq<char>, b: Seq<char>)
    ensures
        digits_value(a + b) == digits_value(a) * pow(10, b.len()) + digits_value(b),
        a.len() == 1 && is_digits(a) ==> digits_value(a) == a[0] as int - '0' as int,
    decreases b.len(),
{
    if a.len() == 1 && is_digits(a) {
        assert(a.drop_last() =~= Seq::<char>::empty());
        assert(digits_value(Seq::<char>::empty()) == 0);
        assert(is_digit(a[0]));
    }
    if b.len() == 0 {
        lemma_pow0(10);
        assert(a + b =~= a);
        assert(digits_value(b) == 0);
    } else {
        let front = b.drop_last();
        digits_have_places(a, front);
        assert((a + b).drop_last() =~= a + front);
        lemma_pow_adds(10, front.len(), 1);
        vstd::arithmetic::power::lemma_pow1(10);
        let high = digits_value(a) as int;
        let low = pow(10, front.len());
        assert((high * low) * 10 == high * (low * 10)) by (nonlinear_arith);
        let d = (b.last() as nat - '0' as nat) as nat;
        assert(digits_value(a + b) == digits_value(a + front) * 10 + d);
        assert(digits_value(b) == digits_value(front) * 10 + d);
    }
}

/// A decimal numeral has no zero in front.
pub proof fn decimal_has_no_leading_zero(n: nat)
    ensures
        decimal(n)[0] == '0' <==> n == 0,
        n == 0 ==> decimal(n).len() == 1,
    decreases n,
{
    if n >= 10 {
        lemma_decimal(n / 10);
        decimal_has_no_leading_zero(n / 10);
        assert(decimal(n)[0] == decimal(n / 10)[0]);
    }
}

/// What reads as a number: digits alone stand for their value, unless it is too large. A plus sign
/// in front changes nothing. Anything else at any place, or nothing at all, is no number.
pub proof fn numbers_are_digits(s: Seq<char>, i: int)
    ensures
        s.len() > 0 && is_digits(s) ==> number(s) == if digits_value(s) <= u64::MAX {
            Some(digits_value(s) as u64)
        } else {
            None
        },
        s.len() > 0 && is_digits(s) ==> number(seq!['+'] + s) == number(s),
        0 <= i < s.len() && !is_digit(s[i]) && (i > 0 || s[i] != '+') ==> number(s) is None,
        s.len() == 0 ==> number(s) is None,
        s == seq!['+'] ==> number(s) is None,
{
    if s.len() > 0 && is_digits(s) {
        assert(is_digit(s[0]));
        assert((seq!['+'] + s).skip(1) =~= s);
    }
    if 0 <= i < s.len() && !is_digit(s[i]) && (i > 0 || s[i] != '+') {
        let digits = unsigned_part(s);
        if s[0] == '+' {
            assert(digits[i - 1] == s[i]);
        } else {
            assert(digits[i] == s[i]);
        }
    }
}

/// A text holds a part exactly where it is something, then the part, then something.
pub proof fn text_holds_its_parts(s: Seq<char>, part: Seq<char>)
    ensures
        holds(s, part) <==> exists|before: Seq<char>, behind: Seq<char>| s == #[trigger] (before
            + part + behind),
{
    if holds(s, part) {
        let at = choose|at: int| stands_at(s, part, at);
        let before = s.take(at);
        let behind = s.skip(at + part.len());
        assert(s =~= before + part + behind);
    }
    if exists|before: Seq<char>, behind: Seq<char>| s == #[trigger] (before + part + behind) {
        let (before, behind) = choose|before: Seq<char>, behind: Seq<char>|
            s == #[trigger] (before + part + behind);
        let at = before.len() as int;
        assert(s.subrange(at, at + part.len()) =~= part);
        assert(stands_at(s, part, at));
    }
}

/// Splitting at a delimiter splits what stands in front of it and what stands behind it.
pub proof fn split_in_parts(a: Seq<char>, b: Seq<char>, delimiter: char)
    ensures
        split(a.push(delimiter) + b, delimiter) == split(a, delimiter) + split(b, delimiter),
    decreases b.len(),
{
    let whole = a.push(delimiter) + b;
    if b.len() == 0 {
        assert(whole.drop_last() =~= a);
        assert(whole.last() == delimiter);
        assert(split(b, delimiter) =~= seq![Seq::<char>::empty()]);
        assert(split(whole, delimiter) =~= split(a, delimiter) + split(b, delimiter));
    } else {
        let front = b.drop_last();
        split_in_parts(a, front, delimiter);
        split_then_joined(front, delimiter);
        assert(whole.drop_last() =~= a.push(delimiter) + front);
        assert(whole.last() == b.last());
        let left = split(a, delimiter);
        let right = split(front, delimiter);
        assert((left + right).last() == right.last());
        assert((left + right).drop_last() =~= left + right.drop_last());
        assert(split(whole, delimiter) =~= left + split(b, delimiter));
    }
}

} // verus!
