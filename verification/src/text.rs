//! Text in pieces: numbers in decimal, names between quotes, and words at a
//! known place. The snapshot is written and read with these.

use vstd::prelude::*;

verus! {

/// `piece` stands in `text` from place `at` on.
pub open spec fn stands_at(text: Seq<char>, at: int, piece: Seq<char>) -> bool {
    0 <= at && at + piece.len() <= text.len() && text.subrange(at, at + piece.len()) == piece
}

/// Two pieces stand one after the other exactly when their joining stands
/// where the first begins.
pub proof fn lemma_stands_at_joined(text: Seq<char>, at: int, first: Seq<char>, second: Seq<char>)
    ensures
        stands_at(text, at, first + second) <==> stands_at(text, at, first) && stands_at(
            text,
            at + first.len(),
            second,
        ),
{
    let both = first + second;
    if stands_at(text, at, both) {
        assert(text.subrange(at, at + first.len()) =~= both.subrange(0, first.len() as int));
        assert(both.subrange(0, first.len() as int) =~= first);
        assert(text.subrange(at + first.len(), at + first.len() + second.len()) =~= both.subrange(
            first.len() as int,
            both.len() as int,
        ));
        assert(both.subrange(first.len() as int, both.len() as int) =~= second);
    }
    if stands_at(text, at, first) && stands_at(text, at + first.len(), second) {
        assert(text.subrange(at, at + both.len()) =~= text.subrange(at, at + first.len())
            + text.subrange(at + first.len(), at + first.len() + second.len()));
    }
}

/// A piece that stands somewhere shows its characters there.
pub proof fn lemma_stands_at_char(text: Seq<char>, at: int, piece: Seq<char>, k: int)
    requires
        stands_at(text, at, piece),
        0 <= k < piece.len(),
    ensures
        text[at + k] == piece[k],
{
    assert(text.subrange(at, at + piece.len())[k] == text[at + k]);
}

/// The characters `0` to `9`.
pub open spec fn is_digit(c: char) -> bool {
    '0' <= c <= '9'
}

/// The character for a digit from 0 to 9.
pub open spec fn digit(d: nat) -> char {
    ('0' as int + d) as char
}

/// The digit that a character from `0` to `9` stands for.
pub open spec fn digit_value(c: char) -> nat {
    (c as int - '0' as int) as nat
}

/// `n` in decimal, without leading zeros.
pub open spec fn decimal(n: nat) -> Seq<char>
    decreases n,
{
    if n < 10 {
        seq![digit(n)]
    } else {
        decimal(n / 10).push(digit(n % 10))
    }
}

/// The number that a run of digits stands for.
pub open spec fn value_of(digits: Seq<char>) -> nat
    decreases digits.len(),
{
    if digits.len() == 0 {
        0
    } else {
        value_of(digits.drop_last()) * 10 + digit_value(digits.last())
    }
}

/// Where the run of digits that begins at `at` ends: the first place from
/// `at` on that holds no digit.
pub open spec fn digits_end(text: Seq<char>, at: int) -> int
    decreases text.len() - at,
{
    if 0 <= at < text.len() && is_digit(text[at]) {
        digits_end(text, at + 1)
    } else {
        at
    }
}

/// The number that stands at `at` and the place behind it: the whole run of
/// digits from there on, which must not be empty nor begin with a needless
/// zero.
pub open spec fn number_at(text: Seq<char>, at: int) -> Option<(nat, int)> {
    let end = digits_end(text, at);
    if 0 <= at < end && (text[at] != '0' || end == at + 1) {
        Some((value_of(text.subrange(at, end)), end))
    } else {
        None
    }
}

/// What a run of digits is: it ends within the text, holds digits only, and
/// what follows it is no digit.
pub proof fn lemma_digits_end(text: Seq<char>, at: int)
    requires
        0 <= at <= text.len(),
    ensures
        at <= digits_end(text, at) <= text.len(),
        forall|k: int| at <= k < digits_end(text, at) ==> is_digit(#[trigger] text[k]),
        digits_end(text, at) < text.len() ==> !is_digit(text[digits_end(text, at)]),
    decreases text.len() - at,
{
    if at < text.len() && is_digit(text[at]) {
        lemma_digits_end(text, at + 1);
    }
}

/// A stretch of digits that no digit follows is the run that begins where
/// it begins.
pub proof fn lemma_digits_end_is(text: Seq<char>, at: int, end: int)
    requires
        0 <= at <= end <= text.len(),
        forall|k: int| at <= k < end ==> is_digit(#[trigger] text[k]),
        end < text.len() ==> !is_digit(text[end]),
    ensures
        digits_end(text, at) == end,
    decreases end - at,
{
    if at < end {
        lemma_digits_end_is(text, at + 1, end);
    }
}

/// A number in decimal is a run of digits that stands for the number and
/// begins with a zero only where the number is zero.
pub proof fn lemma_decimal(n: nat)
    ensures
        decimal(n).len() >= 1,
        forall|k: int| 0 <= k < decimal(n).len() ==> is_digit(#[trigger] decimal(n)[k]),
        value_of(decimal(n)) == n,
        decimal(n)[0] == '0' <==> n == 0,
        n == 0 ==> decimal(n).len() == 1,
    decreases n,
{
    if n < 10 {
        assert(decimal(n).drop_last() =~= Seq::<char>::empty());
        assert(value_of(decimal(n).drop_last()) == 0);
    } else {
        lemma_decimal(n / 10);
        assert(decimal(n).drop_last() =~= decimal(n / 10));
        assert(decimal(n)[0] == decimal(n / 10)[0]);
    }
}

/// A run of digits without a needless zero in front is the decimal of the
/// number it stands for.
pub proof fn lemma_decimal_of_value(digits: Seq<char>)
    requires
        digits.len() >= 1,
        forall|k: int| 0 <= k < digits.len() ==> is_digit(#[trigger] digits[k]),
        digits[0] != '0' || digits.len() == 1,
    ensures
        decimal(value_of(digits)) == digits,
        digits[0] != '0' ==> value_of(digits) >= 1,
    decreases digits.len(),
{
    let front = digits.drop_last();
    let last = digits.last();
    assert(is_digit(digits[digits.len() - 1]));
    if digits.len() == 1 {
        assert(front =~= Seq::<char>::empty());
        assert(value_of(front) == 0);
        assert(decimal(value_of(digits)) =~= digits);
    } else {
        assert(front[0] == digits[0]);
        assert forall|k: int| 0 <= k < front.len() implies is_digit(#[trigger] front[k]) by {
            assert(front[k] == digits[k]);
        }
        lemma_decimal_of_value(front);
        let n = value_of(digits);
        assert(n == value_of(front) * 10 + digit_value(last));
        assert(n / 10 == value_of(front) && n % 10 == digit_value(last));
        assert(decimal(n) =~= digits);
    }
}

/// A longer run of digits stands for no smaller number than its beginning.
pub proof fn lemma_value_grows(digits: Seq<char>, upto: int)
    requires
        0 <= upto <= digits.len(),
    ensures
        value_of(digits.take(upto)) <= value_of(digits),
    decreases digits.len() - upto,
{
    if upto < digits.len() {
        lemma_value_grows(digits.drop_last(), upto);
        assert(digits.drop_last().take(upto) =~= digits.take(upto));
    } else {
        assert(digits.take(upto) =~= digits);
    }
}

/// Reading what was written: where the decimal of `n` stands and no digit
/// follows it, the number read there is `n`.
pub proof fn lemma_number_written(text: Seq<char>, at: int, n: nat)
    requires
        stands_at(text, at, decimal(n)),
        at + decimal(n).len() < text.len() ==> !is_digit(text[at + decimal(n).len()]),
    ensures
        number_at(text, at) == Some((n, at + decimal(n).len())),
{
    let end = at + decimal(n).len();
    lemma_decimal(n);
    assert forall|k: int| at <= k < end implies is_digit(#[trigger] text[k]) by {
        lemma_stands_at_char(text, at, decimal(n), k - at);
    }
    lemma_digits_end_is(text, at, end);
    lemma_stands_at_char(text, at, decimal(n), 0);
}

/// Writing what was read: a number read at `at` stands there in decimal,
/// and no digit follows it.
pub proof fn lemma_number_read(text: Seq<char>, at: int, n: nat, end: int)
    requires
        number_at(text, at) == Some((n, end)),
    ensures
        stands_at(text, at, decimal(n)),
        end == at + decimal(n).len(),
        at < end <= text.len(),
        end < text.len() ==> !is_digit(text[end]),
{
    lemma_digits_end(text, at);
    let digits = text.subrange(at, end);
    assert forall|k: int| 0 <= k < digits.len() implies is_digit(#[trigger] digits[k]) by {
        assert(digits[k] == text[at + k]);
    }
    assert(digits[0] == text[at]);
    lemma_decimal_of_value(digits);
}

/// Writes `n` in decimal behind what `out` holds.
pub fn push_decimal(out: &mut Vec<char>, n: u128)
    ensures
        final(out)@ == old(out)@ + decimal(n as nat),
    decreases n,
{
    let ghost before = out@;
    if n >= 10 {
        push_decimal(out, n / 10);
    }
    let low = (n % 10) as u8;
    out.push((low + 48) as char);
    proof {
        if n >= 10 {
            assert(out@ =~= before + decimal(n as nat));
        } else {
            assert(out@ =~= before + decimal(n as nat));
        }
    }
}

/// Writes `piece` behind what `out` holds.
pub fn push_str(out: &mut Vec<char>, piece: &str)
    ensures
        final(out)@ == old(out)@ + piece@,
{
    broadcast use vstd::string::group_string_axioms;

    let ghost before = out@;
    for c in it: piece.chars()
        invariant
            it.seq() == piece@,
            out@ == before + piece@.take(it.index()),
    {
        out.push(c);
        assert(out@ =~= before + piece@.take(it.index() + 1));
    }
    assert(piece@.take(piece@.len() as int) =~= piece@);
}

/// The characters of `text`.
pub fn to_chars(text: &str) -> (chars: Vec<char>)
    ensures
        chars@ == text@,
{
    let mut chars: Vec<char> = Vec::new();
    push_str(&mut chars, text);
    assert(chars@ =~= text@);
    chars
}

/// `String::push` of the standard library.
///
/// Trusted: it puts the character behind the others and changes nothing
/// else.
pub assume_specification[ String::push ](text: &mut String, c: char)
    ensures
        final(text)@ == old(text)@.push(c),
;

/// The string of `chars`.
pub fn to_string(chars: &Vec<char>) -> (text: String)
    ensures
        text@ == chars@,
{
    let mut text = String::new();
    let mut i: usize = 0;
    while i < chars.len()
        invariant
            i <= chars.len(),
            text@ == chars@.take(i as int),
        decreases chars.len() - i,
    {
        text.push(chars[i]);
        assert(text@ =~= chars@.take(i + 1));
        i += 1;
    }
    assert(chars@.take(i as int) =~= chars@);
    text
}

/// Whether `piece` stands in `text` at `at`; if so, the place behind it.
pub fn skip_piece(text: &Vec<char>, at: usize, piece: &str) -> (behind: Option<usize>)
    ensures
        behind is Some <==> stands_at(text@, at as int, piece@),
        behind matches Some(end) ==> end == at + piece@.len(),
{
    let wanted = to_chars(piece);
    if at > text.len() || wanted.len() > text.len() - at {
        return None;
    }
    let mut k: usize = 0;
    while k < wanted.len()
        invariant
            k <= wanted.len(),
            wanted@ == piece@,
            at + wanted.len() <= text.len(),
            text@.subrange(at as int, at + k) == wanted@.take(k as int),
        decreases wanted.len() - k,
    {
        if text[at + k] != wanted[k] {
            proof {
                if stands_at(text@, at as int, piece@) {
                    lemma_stands_at_char(text@, at as int, piece@, k as int);
                }
            }
            return None;
        }
        assert(text@.subrange(at as int, at + k + 1) =~= wanted@.take(k + 1));
        k += 1;
    }
    assert(wanted@.take(k as int) =~= wanted@);
    Some(at + wanted.len())
}

/// The number that stands at `at` and the place behind it, if a number
/// stands there and is at most `max`.
pub fn read_number(text: &Vec<char>, at: usize, max: u64) -> (found: Option<(u64, usize)>)
    ensures
        match number_at(text@, at as int) {
            Some((n, end)) => if n <= max {
                found matches Some((value, behind)) && value == n && behind == end
            } else {
                found is None
            },
            None => found is None,
        },
{
    if at >= text.len() {
        return None;
    }
    let first = text[at];
    if !(first >= '0' && first <= '9') {
        return None;
    }
    proof {
        lemma_digits_end(text@, at as int);
        lemma_digits_end(text@, at + 1);
    }
    let ghost end = digits_end(text@, at as int);
    let ghost digits = text@.subrange(at as int, end);
    let mut value: u64 = (first as u32 - 48) as u64;
    let mut k: usize = at + 1;
    proof {
        assert(digits.take(1).drop_last() =~= Seq::<char>::empty());
        assert(value_of(digits.take(1).drop_last()) == 0);
        assert(digits.take(1).last() == first);
        lemma_value_grows(digits, 1);
    }
    if value > max {
        return None;
    }
    loop
        invariant
            at < k <= end <= text.len(),
            end == digits_end(text@, at as int),
            digits == text@.subrange(at as int, end),
            value == value_of(digits.take(k - at)),
            value <= max,
            first == text@[at as int],
            first == '0' ==> k == at + 1,
            forall|j: int| at <= j < end ==> is_digit(#[trigger] text@[j]),
            end < text.len() ==> !is_digit(text@[end]),
        ensures
            k == end,
        decreases text.len() - k,
    {
        if k >= text.len() {
            break;
        }
        let c = text[k];
        if !(c >= '0' && c <= '9') {
            break;
        }
        assert(k < end);
        if first == '0' {
            return None;
        }
        let next: u128 = value as u128 * 10 + (c as u32 - 48) as u128;
        proof {
            let upto = digits.take(k - at + 1);
            assert(upto.drop_last() =~= digits.take(k - at));
            assert(upto.last() == c);
            lemma_value_grows(digits, k - at + 1);
        }
        if next > max as u128 {
            return None;
        }
        value = next as u64;
        k += 1;
    }
    proof {
        assert(digits.take(k - at) =~= digits);
    }
    Some((value, k))
}

/// The characters that a name cannot hold as they are between quotes: those
/// before the space.
pub open spec fn is_control(c: char) -> bool {
    '\0' <= c < ' '
}

/// The character for a hexadecimal digit from 0 to 15, in lower case.
pub open spec fn hex_digit(v: int) -> char {
    if v < 10 {
        ('0' as int + v) as char
    } else {
        ('a' as int + v - 10) as char
    }
}

/// The value of a hexadecimal digit in lower case.
pub open spec fn hex_value(c: char) -> Option<int> {
    if '0' <= c <= '9' {
        Some(c as int - '0' as int)
    } else if 'a' <= c <= 'f' {
        Some(c as int - 'a' as int + 10)
    } else {
        None
    }
}

/// How one character is written between quotes: a quote and a backslash
/// behind a backslash, a character before the space as `\u00` and its two
/// hexadecimal digits, every other character as it is.
pub open spec fn escape(c: char) -> Seq<char> {
    if c == '"' || c == '\\' {
        seq!['\\', c]
    } else if is_control(c) {
        seq!['\\', 'u', '0', '0', hex_digit(c as int / 16), hex_digit(c as int % 16)]
    } else {
        seq![c]
    }
}

/// How the characters of a name are written between quotes.
pub open spec fn escaped(name: Seq<char>) -> Seq<char>
    decreases name.len(),
{
    if name.len() == 0 {
        Seq::empty()
    } else {
        escape(name[0]) + escaped(name.drop_first())
    }
}

/// A name as it is written: between quotes, with [`escape`] applied.
pub open spec fn quoted(name: Seq<char>) -> Seq<char> {
    seq!['"'] + escaped(name) + seq!['"']
}

/// The character written at `at`, which is no closing quote, and the place
/// behind it. Only what [`escape`] writes is read.
pub open spec fn char_at(text: Seq<char>, at: int) -> Option<(char, int)> {
    if !(0 <= at < text.len()) {
        None
    } else if text[at] == '\\' {
        if at + 1 < text.len() && (text[at + 1] == '"' || text[at + 1] == '\\') {
            Some((text[at + 1], at + 2))
        } else if at + 5 < text.len() && text[at + 1] == 'u' && text[at + 2] == '0' && text[at + 3]
            == '0' && (text[at + 4] == '0' || text[at + 4] == '1') && hex_value(text[at + 5])
            is Some {
            Some(
                (
                    ((text[at + 4] as int - '0' as int) * 16 + hex_value(
                        text[at + 5],
                    ).unwrap()) as char,
                    at + 6,
                ),
            )
        } else {
            None
        }
    } else if text[at] == '"' || is_control(text[at]) {
        None
    } else {
        Some((text[at], at + 1))
    }
}

/// The characters written from `at` up to the closing quote, and the place
/// behind that quote.
pub open spec fn chars_until_quote(text: Seq<char>, at: int) -> Option<(Seq<char>, int)>
    decreases text.len() - at,
{
    if !(0 <= at < text.len()) {
        None
    } else if text[at] == '"' {
        Some((Seq::empty(), at + 1))
    } else {
        match char_at(text, at) {
            Some((c, next)) => if next > at {
                match chars_until_quote(text, next) {
                    Some((rest, end)) => Some((seq![c] + rest, end)),
                    None => None,
                }
            } else {
                None
            },
            None => None,
        }
    }
}

/// The name written between quotes at `at`, and the place behind it.
pub open spec fn quoted_at(text: Seq<char>, at: int) -> Option<(Seq<char>, int)> {
    if 0 <= at < text.len() && text[at] == '"' {
        chars_until_quote(text, at + 1)
    } else {
        None
    }
}

/// Writing a name with one more character at its end adds what is written
/// for that character.
pub proof fn lemma_escaped_push(name: Seq<char>, c: char)
    ensures
        escaped(name.push(c)) == escaped(name) + escape(c),
    decreases name.len(),
{
    let longer = name.push(c);
    if name.len() == 0 {
        assert(longer.drop_first() =~= Seq::<char>::empty());
        assert(escaped(longer.drop_first()) =~= Seq::<char>::empty());
        assert(escaped(longer) =~= escaped(name) + escape(c));
    } else {
        lemma_escaped_push(name.drop_first(), c);
        assert(longer.drop_first() =~= name.drop_first().push(c));
        assert(longer[0] == name[0]);
        assert(escaped(longer) =~= escaped(name) + escape(c));
    }
}

/// Reading one written character gives the character back.
pub proof fn lemma_char_written(text: Seq<char>, at: int, c: char)
    requires
        stands_at(text, at, escape(c)),
    ensures
        char_at(text, at) == Some((c, at + escape(c).len())),
        text[at] != '"',
{
    let piece = escape(c);
    assert forall|k: int| 0 <= k < piece.len() implies text[at + k] == piece[k] by {
        lemma_stands_at_char(text, at, piece, k);
    }
    if c == '"' || c == '\\' {
        assert(text[at] == piece[0] && text[at + 1] == piece[1]);
    } else if is_control(c) {
        assert(text[at] == piece[0] && text[at + 1] == piece[1] && text[at + 2] == piece[2]
            && text[at + 3] == piece[3] && text[at + 4] == piece[4] && text[at + 5] == piece[5]);
        let (high, low) = (c as int / 16, c as int % 16);
        assert(0 <= high < 2 && 0 <= low < 16);
        assert(hex_value(hex_digit(low)) == Some(low));
        assert(hex_digit(high) as int - '0' as int == high);
        assert((high * 16 + low) as char == c);
    } else {
        assert(text[at] == piece[0]);
    }
}

/// One character that was read stands at its place as [`escape`] writes it.
pub proof fn lemma_char_read(text: Seq<char>, at: int, c: char, next: int)
    requires
        char_at(text, at) == Some((c, next)),
    ensures
        stands_at(text, at, escape(c)),
        next == at + escape(c).len(),
        at < next <= text.len(),
{
    if text[at] == '\\' {
        if at + 1 < text.len() && (text[at + 1] == '"' || text[at + 1] == '\\') {
            assert(text.subrange(at, at + 2) =~= escape(c));
        } else {
            let high = text[at + 4] as int - '0' as int;
            let low = hex_value(text[at + 5]).unwrap();
            let v = high * 16 + low;
            assert(0 <= v < 32);
            assert(c as int == v);
            assert(v / 16 == high && v % 16 == low);
            assert(hex_digit(high) == text[at + 4]);
            assert(hex_digit(low) == text[at + 5]);
            assert(text.subrange(at, at + 6) =~= escape(c));
        }
    } else {
        assert(text.subrange(at, at + 1) =~= escape(c));
    }
}

/// Reading what was written: where the characters of `name` stand as
/// written, with the closing quote behind them, they are read as `name`.
pub proof fn lemma_chars_written(text: Seq<char>, at: int, name: Seq<char>)
    requires
        stands_at(text, at, escaped(name) + seq!['"']),
    ensures
        chars_until_quote(text, at) == Some((name, at + escaped(name).len() + 1)),
    decreases name.len(),
{
    let quote = seq!['"'];
    if name.len() == 0 {
        assert(escaped(name) + quote =~= quote);
        lemma_stands_at_char(text, at, quote, 0);
    } else {
        let first = escape(name[0]);
        let rest = name.drop_first();
        assert(escaped(name) + quote =~= first + (escaped(rest) + quote));
        lemma_stands_at_joined(text, at, first, escaped(rest) + quote);
        lemma_char_written(text, at, name[0]);
        lemma_chars_written(text, at + first.len(), rest);
        assert(seq![name[0]] + rest =~= name);
    }
}

/// Writing what was read: characters read up to a closing quote stand at
/// their place as written, with the quote behind them.
pub proof fn lemma_chars_read(text: Seq<char>, at: int, name: Seq<char>, end: int)
    requires
        chars_until_quote(text, at) == Some((name, end)),
    ensures
        stands_at(text, at, escaped(name) + seq!['"']),
        end == at + escaped(name).len() + 1,
        at < end <= text.len(),
    decreases text.len() - at,
{
    let quote = seq!['"'];
    if text[at] == '"' {
        assert(escaped(name) + quote =~= quote);
        assert(text.subrange(at, at + 1) =~= quote);
    } else {
        let (c, next) = char_at(text, at).unwrap();
        let (rest, _) = chars_until_quote(text, next).unwrap();
        lemma_char_read(text, at, c, next);
        lemma_chars_read(text, next, rest, end);
        assert(name.drop_first() =~= rest);
        assert(name[0] == c);
        assert(escaped(name) + quote =~= escape(c) + (escaped(rest) + quote));
        lemma_stands_at_joined(text, at, escape(c), escaped(rest) + quote);
    }
}

/// Reading what was written: where `name` stands between quotes, it is
/// read as `name`.
pub proof fn lemma_quoted_written(text: Seq<char>, at: int, name: Seq<char>)
    requires
        stands_at(text, at, quoted(name)),
    ensures
        quoted_at(text, at) == Some((name, at + quoted(name).len())),
{
    let quote = seq!['"'];
    assert(quoted(name) =~= quote + (escaped(name) + quote));
    lemma_stands_at_joined(text, at, quote, escaped(name) + quote);
    lemma_stands_at_char(text, at, quote, 0);
    lemma_chars_written(text, at + 1, name);
}

/// Writing what was read: a name read at `at` stands there between quotes.
pub proof fn lemma_quoted_read(text: Seq<char>, at: int, name: Seq<char>, end: int)
    requires
        quoted_at(text, at) == Some((name, end)),
    ensures
        stands_at(text, at, quoted(name)),
        end == at + quoted(name).len(),
        at < end <= text.len(),
{
    let quote = seq!['"'];
    lemma_chars_read(text, at + 1, name, end);
    assert(text.subrange(at, at + 1) =~= quote);
    assert(quoted(name) =~= quote + (escaped(name) + quote));
    lemma_stands_at_joined(text, at, quote, escaped(name) + quote);
}

/// The character for a hexadecimal digit.
fn hex_char(v: u8) -> (c: char)
    requires
        v < 16,
    ensures
        c == hex_digit(v as int),
{
    if v < 10 {
        (v + 48) as char
    } else {
        (v + 87) as char
    }
}

/// Writes `name` between quotes behind what `out` holds.
pub fn push_quoted(out: &mut Vec<char>, name: &str)
    ensures
        final(out)@ == old(out)@ + quoted(name@),
{
    broadcast use vstd::string::group_string_axioms;

    let ghost before = out@;
    out.push('"');
    for c in it: name.chars()
        invariant
            it.seq() == name@,
            out@ == before + seq!['"'] + escaped(name@.take(it.index())),
    {
        let ghost sofar = out@;
        proof {
            lemma_escaped_push(name@.take(it.index()), c);
            assert(name@.take(it.index() + 1) =~= name@.take(it.index()).push(c));
        }
        if c == '"' || c == '\\' {
            out.push('\\');
            out.push(c);
        } else if c >= '\0' && ' ' > c {
            let code = c as u32;
            out.push('\\');
            out.push('u');
            out.push('0');
            out.push('0');
            out.push(hex_char((code / 16) as u8));
            out.push(hex_char((code % 16) as u8));
        } else {
            out.push(c);
        }
        assert(out@ =~= sofar + escape(c));
        assert(out@ =~= before + seq!['"'] + escaped(name@.take(it.index() + 1)));
    }
    out.push('"');
    assert(name@.take(name@.len() as int) =~= name@);
    assert(out@ =~= before + quoted(name@));
}

/// The character written at `at` and the place behind it, if one is
/// written there.
fn read_char(text: &Vec<char>, at: usize) -> (found: Option<(char, usize)>)
    ensures
        match char_at(text@, at as int) {
            Some((c, next)) => found matches Some((read, behind)) && read == c && behind == next,
            None => found is None,
        },
{
    if at >= text.len() {
        return None;
    }
    let c = text[at];
    if c == '\\' {
        if text.len() - at >= 2 && (text[at + 1] == '"' || text[at + 1] == '\\') {
            return Some((text[at + 1], at + 2));
        }
        if text.len() - at >= 6 && text[at + 1] == 'u' && text[at + 2] == '0' && text[at + 3]
            == '0' && (text[at + 4] == '0' || text[at + 4] == '1') {
            let high: u8 = if text[at + 4] == '1' {
                1
            } else {
                0
            };
            let digit = text[at + 5];
            if digit >= '0' && digit <= '9' {
                let low = (digit as u32 - 48) as u8;
                return Some(((high * 16 + low) as char, at + 6));
            }
            if digit >= 'a' && digit <= 'f' {
                let low = (digit as u32 - 87) as u8;
                return Some(((high * 16 + low) as char, at + 6));
            }
        }
        None
    } else if c == '"' || (c >= '\0' && ' ' > c) {
        None
    } else {
        Some((c, at + 1))
    }
}

/// The name written between quotes at `at` and the place behind it, if a
/// name is written there.
pub fn read_quoted(text: &Vec<char>, at: usize) -> (found: Option<(String, usize)>)
    ensures
        match quoted_at(text@, at as int) {
            Some((name, end)) => found matches Some((read, behind)) && read@ == name && behind
                == end,
            None => found is None,
        },
{
    if at >= text.len() || text[at] != '"' {
        return None;
    }
    let mut name = String::new();
    let mut at_now: usize = at + 1;
    loop
        invariant
            at < at_now <= text.len(),
            text@[at as int] == '"',
            chars_until_quote(text@, at + 1) == match chars_until_quote(text@, at_now as int) {
                Some((rest, end)) => Some((name@ + rest, end)),
                None => None,
            },
        decreases text.len() - at_now,
    {
        if at_now >= text.len() {
            return None;
        }
        if text[at_now] == '"' {
            assert(name@ + Seq::<char>::empty() =~= name@);
            return Some((name, at_now + 1));
        }
        match read_char(text, at_now) {
            Some((c, next)) => {
                proof {
                    lemma_char_read(text@, at_now as int, c, next as int);
                    match chars_until_quote(text@, next as int) {
                        Some((rest, end)) => {
                            assert(name@ + (seq![c] + rest) =~= name@.push(c) + rest);
                        },
                        None => {},
                    }
                }
                name.push(c);
                at_now = next;
            },
            None => {
                return None;
            },
        }
    }
}

} // verus!
