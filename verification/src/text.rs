//! Text helpers over the character sequence of a string.
use vstd::prelude::*;
use vstd::string::*;

verus! {

/// The characters of `s`, in order.
pub fn chars_of(s: &str) -> (chars: Vec<char>)
    ensures
        chars@ == s@,
{
    let mut chars: Vec<char> = Vec::new();
    for c in it: s.chars()
        invariant
            chars@ == it.seq().take(it.index()),
            it.seq() == s@,
    {
        chars.push(c);
    }
    chars
}

/// The string that holds one character, made by `String`'s `From<char>`.
#[verifier::external_body]
pub(crate) fn char_text(c: char) -> (s: String)
    ensures
        s@ == seq![c],
{
    String::from(c)
}

/// Whether two strings hold the same characters.
pub fn same_text(a: &str, b: &str) -> (same: bool)
    ensures
        same == (a@ == b@),
{
    let left = chars_of(a);
    let right = chars_of(b);
    if left.len() != right.len() {
        return false;
    }
    let mut i: usize = 0;
    while i < left.len()
        invariant
            i <= left.len() == right.len(),
            left@ == a@,
            right@ == b@,
            forall|j: int| 0 <= j < i ==> left[j] == right[j],
        decreases left.len() - i,
    {
        if left[i] != right[i] {
            assert(a@[i as int] != b@[i as int]);
            return false;
        }
        i += 1;
    }
    assert(a@ =~= b@);
    true
}

/// Lexicographic order by code point: the order in which keyed text is kept.
pub open spec fn precedes(a: Seq<char>, b: Seq<char>) -> bool
    decreases a.len(),
{
    b.len() > 0 && (a.len() == 0 || a[0] < b[0] || (a[0] == b[0] && precedes(
        a.drop_first(),
        b.drop_first(),
    )))
}

/// No text precedes itself.
pub proof fn precedes_irreflexive(a: Seq<char>)
    ensures
        !precedes(a, a),
    decreases a.len(),
{
    if a.len() > 0 {
        precedes_irreflexive(a.drop_first());
    }
}

/// `precedes` is transitive.
pub proof fn precedes_transitive(a: Seq<char>, b: Seq<char>, c: Seq<char>)
    requires
        precedes(a, b),
        precedes(b, c),
    ensures
        precedes(a, c),
    decreases a.len(),
{
    if a.len() > 0 && a[0] == b[0] && b[0] == c[0] {
        precedes_transitive(a.drop_first(), b.drop_first(), c.drop_first());
    }
}

/// Of two different texts one precedes the other.
pub proof fn precedes_total(a: Seq<char>, b: Seq<char>)
    ensures
        a == b || precedes(a, b) || precedes(b, a),
    decreases a.len(),
{
    if a.len() > 0 && b.len() > 0 && a[0] == b[0] {
        precedes_total(a.drop_first(), b.drop_first());
        if a.drop_first() == b.drop_first() {
            assert(a =~= seq![a[0]] + a.drop_first());
            assert(b =~= seq![b[0]] + b.drop_first());
        }
    } else if a.len() == 0 && b.len() == 0 {
        assert(a =~= b);
    }
}

/// Whether `a` comes before `b`.
pub fn text_before(a: &str, b: &str) -> (before: bool)
    ensures
        before == precedes(a@, b@),
{
    let left = chars_of(a);
    let right = chars_of(b);
    let mut i: usize = 0;
    proof {
        assert(a@.skip(0) =~= a@);
        assert(b@.skip(0) =~= b@);
    }
    while i < left.len()
        invariant
            i <= left.len(),
            i <= right.len(),
            left@ == a@,
            right@ == b@,
            precedes(a@, b@) == precedes(a@.skip(i as int), b@.skip(i as int)),
        decreases left.len() - i,
    {
        let ghost x = a@.skip(i as int);
        let ghost y = b@.skip(i as int);
        if i >= right.len() {
            return false;
        }
        assert(x[0] == left[i as int] && y[0] == right[i as int]);
        if left[i] != right[i] {
            return left[i] < right[i];
        }
        proof {
            assert(x.drop_first() =~= a@.skip(i + 1));
            assert(y.drop_first() =~= b@.skip(i + 1));
        }
        i += 1;
    }
    i < right.len()
}

/// The pieces of `s` between occurrences of `separator`; there is always at least one piece.
pub open spec fn split_on(s: Seq<char>, separator: char) -> Seq<Seq<char>>
    decreases s.len(),
{
    if s.len() == 0 {
        seq![Seq::empty()]
    } else {
        let pieces = split_on(s.drop_last(), separator);
        if s.last() == separator {
            pieces.push(Seq::empty())
        } else {
            pieces.drop_last().push(pieces.last().push(s.last()))
        }
    }
}

/// The character sequences of a list of strings.
pub open spec fn texts(list: Seq<String>) -> Seq<Seq<char>> {
    list.map_values(|s: String| s@)
}

/// Splits `s` at every `separator`, keeping empty pieces.
pub fn split(s: &str, separator: char) -> (pieces: Vec<String>)
    ensures
        texts(pieces@) == split_on(s@, separator),
        pieces@.len() > 0,
{
    let chars = chars_of(s);
    let mut pieces: Vec<String> = Vec::new();
    let mut start: usize = 0;
    let mut i: usize = 0;
    assert(s@.take(0) =~= Seq::<char>::empty());
    assert(texts(pieces@).push(s@.subrange(0, 0)) =~= seq![Seq::<char>::empty()]);
    while i < chars.len()
        invariant
            start <= i <= chars.len(),
            chars@ == s@,
            texts(pieces@).push(s@.subrange(start as int, i as int)) == split_on(
                s@.take(i as int),
                separator,
            ),
        decreases chars.len() - i,
    {
        let ghost upto = s@.take(i + 1);
        let ghost pieces_before = texts(pieces@).push(s@.subrange(start as int, i as int));
        assert(upto.drop_last() =~= s@.take(i as int));
        if chars[i] == separator {
            let piece = s.substring_char(start, i).to_owned();
            let ghost before = pieces@;
            pieces.push(piece);
            start = i + 1;
            proof {
                assert(texts(pieces@) =~= texts(before).push(piece@));
                assert(s@.subrange(i + 1, i + 1) =~= Seq::<char>::empty());
            }
        } else {
            proof {
                assert(s@.subrange(start as int, i + 1) =~= s@.subrange(start as int, i as int).push(
                    chars@[i as int],
                ));
                assert(pieces_before.drop_last() =~= texts(pieces@));
            }
        }
        i += 1;
    }
    assert(s@.take(s@.len() as int) =~= s@);
    let piece = s.substring_char(start, chars.len()).to_owned();
    let ghost before = pieces@;
    pieces.push(piece);
    assert(texts(pieces@) =~= texts(before).push(piece@));
    pieces
}

/// The pieces that are not empty.
pub open spec fn non_empty(pieces: Seq<Seq<char>>) -> Seq<Seq<char>>
    decreases pieces.len(),
{
    if pieces.len() == 0 {
        Seq::empty()
    } else {
        let kept = non_empty(pieces.drop_last());
        if pieces.last().len() == 0 {
            kept
        } else {
            kept.push(pieces.last())
        }
    }
}

/// Whether `c` is a decimal digit.
pub open spec fn is_digit(c: char) -> bool {
    '0' <= c <= '9'
}

/// The number that a run of decimal digits writes.
pub open spec fn decimal(digits: Seq<char>) -> nat
    decreases digits.len(),
{
    if digits.len() == 0 {
        0
    } else {
        decimal(digits.drop_last()) * 10 + (digits.last() as nat - '0' as nat) as nat
    }
}

pub open spec fn all_digits(digits: Seq<char>) -> bool {
    forall|i: int| 0 <= i < digits.len() ==> is_digit(#[trigger] digits[i])
}

/// What is left of a text when a leading `+` is dropped.
pub open spec fn unsigned_part(s: Seq<char>) -> Seq<char> {
    if s.len() > 0 && s[0] == '+' {
        s.drop_first()
    } else {
        s
    }
}

/// The index that a text writes: an optional `+`, then at least one decimal digit, with a value
/// that fits a `usize`.
pub open spec fn index_of_text(s: Seq<char>) -> Option<usize> {
    let digits = unsigned_part(s);
    if digits.len() > 0 && all_digits(digits) && decimal(digits) <= usize::MAX {
        Some(decimal(digits) as usize)
    } else {
        None
    }
}

proof fn decimal_grows(digits: Seq<char>, n: int)
    requires
        0 <= n <= digits.len(),
        all_digits(digits),
    ensures
        decimal(digits.take(n)) <= decimal(digits),
    decreases digits.len(),
{
    if n < digits.len() {
        decimal_grows(digits.drop_last(), n);
        assert(digits.drop_last().take(n) =~= digits.take(n));
    } else {
        assert(digits.take(n) =~= digits);
    }
}

/// Reads a text as an index.
pub fn text_index(s: &str) -> (index: Option<usize>)
    ensures
        index == index_of_text(s@),
{
    let chars = chars_of(s);
    let mut i: usize = 0;
    if chars.len() > 0 && chars[0] == '+' {
        i = 1;
    }
    let first: usize = i;
    let ghost digits = s@.skip(first as int);
    assert(digits =~= unsigned_part(s@));
    if i >= chars.len() {
        return None;
    }
    let mut total: usize = 0;
    assert(digits.take(0) =~= Seq::<char>::empty());
    while i < chars.len()
        invariant
            first <= i <= chars.len(),
            chars@ == s@,
            digits == s@.skip(first as int),
            digits == unsigned_part(s@),
            digits.len() > 0,
            all_digits(digits.take(i - first)),
            total == decimal(digits.take(i - first)),
        decreases chars.len() - i,
    {
        let c = chars[i];
        let ghost upto = digits.take(i - first + 1);
        assert(digits[i - first] == c);
        assert(upto.drop_last() =~= digits.take(i - first));
        if c < '0' || c > '9' {
            assert(!is_digit(digits[i - first]));
            return None;
        }
        let digit: usize = (c as u32 - 48) as usize;
        if total > (usize::MAX - digit) / 10 {
            proof {
                if all_digits(digits) {
                    decimal_grows(digits, i - first + 1);
                    assert(total * 10 + digit > usize::MAX);
                }
            }
            return None;
        }
        assert(all_digits(upto)) by {
            assert forall|j: int| 0 <= j < upto.len() implies is_digit(#[trigger] upto[j]) by {
                if j < i - first {
                    assert(upto[j] == digits.take(i - first)[j]);
                }
            }
        }
        total = total * 10 + digit;
        i += 1;
    }
    assert(digits.take(digits.len() as int) =~= digits);
    Some(total)
}

/// The parts written one after the other with `separator` between them.
pub open spec fn joined(parts: Seq<Seq<char>>, separator: Seq<char>) -> Seq<char>
    decreases parts.len(),
{
    if parts.len() == 0 {
        Seq::empty()
    } else if parts.len() == 1 {
        parts[0]
    } else {
        joined(parts.drop_last(), separator) + separator + parts.last()
    }
}

/// Writes the first `n` parts one after the other with `separator` between them.
pub fn join_first(parts: &Vec<String>, n: usize, separator: &str) -> (whole: String)
    requires
        n <= parts.len(),
    ensures
        whole@ == joined(texts(parts@).take(n as int), separator@),
{
    let ghost all = texts(parts@);
    let mut whole = String::new();
    let mut i: usize = 0;
    while i < n
        invariant
            i <= n <= parts.len(),
            all == texts(parts@),
            whole@ == joined(all.take(i as int), separator@),
        decreases n - i,
    {
        let ghost before = whole@;
        assert(all.take(i + 1).drop_last() =~= all.take(i as int));
        assert(all.take(i + 1).last() == parts@[i as int]@);
        if i > 0 {
            whole.append(separator);
        }
        whole.append(parts[i].as_str());
        if i == 0 {
            assert(whole@ =~= parts@[i as int]@);
        }
        i += 1;
    }
    whole
}

/// Writes the parts one after the other with `separator` between them.
pub fn join(parts: &Vec<String>, separator: &str) -> (whole: String)
    ensures
        whole@ == joined(texts(parts@), separator@),
{
    assert(texts(parts@).take(parts@.len() as int) =~= texts(parts@));
    join_first(parts, parts.len(), separator)
}

/// Whether `s` holds two colons in a row.
pub open spec fn has_double_colon(s: Seq<char>) -> bool {
    exists|i: int| 0 <= i && i + 1 < s.len() && #[trigger] s[i] == ':' && s[i + 1] == ':'
}

/// Whether `s` holds two colons in a row, as a qualified name does.
pub fn is_qualified(s: &str) -> (qualified: bool)
    ensures
        qualified == has_double_colon(s@),
{
    let chars = chars_of(s);
    let mut i: usize = 0;
    while i < chars.len()
        invariant
            i <= chars.len(),
            chars@ == s@,
            forall|j: int| 0 <= j < i && j + 1 < s@.len() ==> !(#[trigger] s@[j] == ':' && s@[j + 1] == ':'),
        decreases chars.len() - i,
    {
        if chars[i] == ':' && i + 1 < chars.len() && chars[i + 1] == ':' {
            assert(s@[i as int] == ':');
            return true;
        }
        i += 1;
    }
    false
}

/// Whether a list of strings holds a text.
pub fn holds(list: &Vec<String>, wanted: &str) -> (found: bool)
    ensures
        found == texts(list@).contains(wanted@),
{
    let mut i: usize = 0;
    while i < list.len()
        invariant
            i <= list.len(),
            forall|j: int| 0 <= j < i ==> list@[j]@ != wanted@,
        decreases list.len() - i,
    {
        if same_text(list[i].as_str(), wanted) {
            assert(texts(list@)[i as int] == wanted@);
            return true;
        }
        i += 1;
    }
    false
}

/// A copy of a list of strings.
pub fn copy_list(list: &Vec<String>) -> (copy: Vec<String>)
    ensures
        copy@ == list@,
{
    let mut copy: Vec<String> = Vec::new();
    let mut i: usize = 0;
    while i < list.len()
        invariant
            i <= list.len(),
            copy@ == list@.take(i as int),
        decreases list.len() - i,
    {
        copy.push(list[i].clone());
        assert(copy@ =~= list@.take(i + 1));
        i += 1;
    }
    assert(list@.take(list@.len() as int) =~= list@);
    copy
}

/// An ASCII capital as its small letter; any other character as it is.
pub open spec fn lower_char(c: char) -> char {
    if 'A' <= c <= 'Z' {
        (c as u8 + 32) as char
    } else {
        c
    }
}

/// A text with its ASCII capitals as small letters.
pub open spec fn ascii_lower(s: Seq<char>) -> Seq<char> {
    s.map_values(|c: char| lower_char(c))
}

fn to_lower(c: char) -> (lower: char)
    ensures
        lower == lower_char(c),
{
    if 'A' <= c && c <= 'Z' {
        (c as u8 + 32) as char
    } else {
        c
    }
}

/// A copy of `s` with its ASCII capitals as small letters.
pub fn to_ascii_lower(s: &str) -> (lower: String)
    ensures
        lower@ == ascii_lower(s@),
{
    let chars = chars_of(s);
    let mut lower = String::new();
    let mut i: usize = 0;
    assert(ascii_lower(s@).take(0) =~= Seq::<char>::empty());
    while i < chars.len()
        invariant
            i <= chars.len(),
            chars@ == s@,
            lower@ == ascii_lower(s@).take(i as int),
        decreases chars.len() - i,
    {
        lower.append(char_text(to_lower(chars[i])).as_str());
        assert(lower@ =~= ascii_lower(s@).take(i + 1));
        i += 1;
    }
    assert(ascii_lower(s@).take(s@.len() as int) =~= ascii_lower(s@));
    lower
}

/// Whether `s` is `small` once its ASCII capitals are small letters.
pub fn lower_is(s: &str, small: &str) -> (same: bool)
    ensures
        same == (ascii_lower(s@) == small@),
{
    let left = chars_of(s);
    let right = chars_of(small);
    if left.len() != right.len() {
        assert(ascii_lower(s@).len() == s@.len());
        return false;
    }
    let mut i: usize = 0;
    while i < left.len()
        invariant
            i <= left.len() == right.len(),
            left@ == s@,
            right@ == small@,
            forall|j: int| 0 <= j < i ==> lower_char(#[trigger] left[j]) == right[j],
        decreases left.len() - i,
    {
        if to_lower(left[i]) != right[i] {
            assert(ascii_lower(s@)[i as int] != small@[i as int]);
            return false;
        }
        i += 1;
    }
    assert(ascii_lower(s@) =~= small@);
    true
}

/// Where a name stands in a list of names.
pub open spec fn place_of(names: Seq<Seq<char>>, name: Seq<char>) -> int {
    choose|i: int| 0 <= i < names.len() && names[i] == name
}

/// Where a text stands in a list of distinct strings.
pub fn position_of(list: &Vec<String>, wanted: &str) -> (found: Option<usize>)
    requires
        texts(list@).no_duplicates(),
    ensures
        match found {
            Some(i) => i < list.len() && texts(list@)[i as int] == wanted@ && place_of(
                texts(list@),
                wanted@,
            ) == i,
            None => !texts(list@).contains(wanted@),
        },
{
    let ghost all = texts(list@);
    let mut i: usize = 0;
    while i < list.len()
        invariant
            i <= list.len(),
            all == texts(list@),
            all.no_duplicates(),
            forall|j: int| 0 <= j < i ==> #[trigger] all[j] != wanted@,
        decreases list.len() - i,
    {
        assert(all[i as int] == list@[i as int]@);
        if same_text(list[i].as_str(), wanted) {
            assert(all[place_of(all, wanted@)] == wanted@);
            return Some(i);
        }
        i += 1;
    }
    None
}

/// One more item of a list: it holds what was there before and that item.
pub proof fn take_one_more<A>(list: Seq<A>, i: int)
    requires
        0 <= i < list.len(),
    ensures
        forall|x: A| #[trigger] list.take(i + 1).contains(x) <==> list.take(i).contains(x) || x == list[i],
{
    let longer = list.take(i + 1);
    let shorter = list.take(i);
    assert forall|x: A| #[trigger] longer.contains(x) <==> shorter.contains(x) || x == list[i] by {
        if longer.contains(x) {
            let j = choose|j: int| 0 <= j < longer.len() && longer[j] == x;
            if j < i {
                assert(shorter[j] == x);
            }
        }
        if shorter.contains(x) {
            let j = choose|j: int| 0 <= j < shorter.len() && shorter[j] == x;
            assert(longer[j] == x);
        }
        if x == list[i] {
            assert(longer[i] == x);
        }
    }
}

/// The decimal digits of a number, without leading zeros.
pub open spec fn digits(n: nat) -> Seq<char>
    decreases n,
{
    let last = (('0' as int) + n % 10) as char;
    if n < 10 {
        seq![last]
    } else {
        digits(n / 10).push(last)
    }
}

/// A number in decimal digits.
pub fn number_text(n: u64) -> (written: String)
    ensures
        written@ == digits(n as nat),
    decreases n,
{
    let last = (48 + (n % 10) as u8) as char;
    let mut written = if n < 10 {
        String::new()
    } else {
        number_text(n / 10)
    };
    written.append(char_text(last).as_str());
    written
}

/// A whole number in decimal digits, with a sign if it is negative.
pub open spec fn signed_digits(n: int) -> Seq<char> {
    if n < 0 {
        "-"@ + digits((-n) as nat)
    } else {
        digits(n as nat)
    }
}

/// A whole number in decimal digits, with a sign if it is negative.
pub fn signed_text(n: i64) -> (written: String)
    ensures
        written@ == signed_digits(n as int),
{
    if n >= 0 {
        number_text(n as u64)
    } else {
        let size: u64 = if n == i64::MIN {
            0x8000_0000_0000_0000
        } else {
            (-n) as u64
        };
        let mut written = "-".to_owned();
        written.append(number_text(size).as_str());
        written
    }
}

/// The digits of a number are read as that number.
pub proof fn digits_read_back(n: nat)
    ensures
        digits(n).len() > 0,
        all_digits(digits(n)),
        decimal(digits(n)) == n,
    decreases n,
{
    if n >= 10 {
        digits_read_back(n / 10);
        assert(digits(n).drop_last() =~= digits(n / 10));
    } else {
        assert(digits(n).drop_last() =~= Seq::<char>::empty());
        assert(decimal(Seq::<char>::empty()) == 0);
    }
}

/// Two texts one after the other.
pub fn followed_by(before: &str, after: &str) -> (whole: String)
    ensures
        whole@ == before@ + after@,
{
    let mut whole = before.to_owned();
    whole.append(after);
    whole
}

/// Three texts one after the other.
pub fn in_between(before: &str, inner: &str, after: &str) -> (whole: String)
    ensures
        whole@ == before@ + inner@ + after@,
{
    let mut whole = before.to_owned();
    whole.append(inner);
    whole.append(after);
    whole
}

/// Splitting loses nothing: the pieces written one after the other with the separator between
/// them are the text again, and no piece holds the separator.
pub proof fn pieces_join_to_the_text(s: Seq<char>, separator: char)
    ensures
        split_on(s, separator).len() > 0,
        joined(split_on(s, separator), seq![separator]) == s,
        forall|i: int, j: int|
            0 <= i < split_on(s, separator).len() && 0 <= j < split_on(s, separator)[i].len()
                ==> #[trigger] split_on(s, separator)[i][j] != separator,
    decreases s.len(),
{
    let pieces = split_on(s, separator);
    let between = seq![separator];
    if s.len() == 0 {
        assert(joined(pieces, between) =~= s);
    } else {
        let shorter = split_on(s.drop_last(), separator);
        pieces_join_to_the_text(s.drop_last(), separator);
        assert(s =~= s.drop_last().push(s.last()));
        assert(shorter =~= shorter.drop_last().push(shorter.last()));
        if s.last() == separator {
            assert(pieces.drop_last() =~= shorter);
            assert(joined(pieces, between) =~= s);
            assert forall|i: int, j: int|
                0 <= i < pieces.len() && 0 <= j < pieces[i].len() implies #[trigger] pieces[i][j]
                != separator by {
                assert(pieces[i] == shorter[i]);
            }
        } else {
            let grown = shorter.last().push(s.last());
            assert(pieces.drop_last() =~= shorter.drop_last());
            assert(pieces.last() == grown);
            assert(joined(pieces, between) =~= joined(shorter, between).push(s.last()));
            assert forall|i: int, j: int|
                0 <= i < pieces.len() && 0 <= j < pieces[i].len() implies #[trigger] pieces[i][j]
                != separator by {
                if i < shorter.len() - 1 {
                    assert(pieces[i] == shorter[i]);
                } else if j < shorter.last().len() {
                    assert(shorter[i][j] == grown[j]);
                }
            }
        }
    }
}

/// A text without the separator is its own only piece.
pub proof fn unbroken_text_is_one_piece(s: Seq<char>, separator: char)
    requires
        !s.contains(separator),
    ensures
        split_on(s, separator) == seq![s],
    decreases s.len(),
{
    if s.len() > 0 {
        assert(s[s.len() - 1] != separator);
        assert(!s.drop_last().contains(separator)) by {
            if s.drop_last().contains(separator) {
                let j = choose|j: int| 0 <= j < s.drop_last().len() && s.drop_last()[j] == separator;
                assert(s[j] == separator);
            }
        }
        unbroken_text_is_one_piece(s.drop_last(), separator);
        assert(s.drop_last().push(s.last()) =~= s);
        assert(split_on(s, separator) =~= seq![s]);
    } else {
        assert(s =~= Seq::<char>::empty());
    }
}

/// The pieces of two texts with the separator between them are those of the one and those of the
/// other.
pub proof fn pieces_of_two_texts(a: Seq<char>, b: Seq<char>, separator: char)
    ensures
        split_on(a.push(separator) + b, separator) == split_on(a, separator) + split_on(
            b,
            separator,
        ),
    decreases b.len(),
{
    let whole = a.push(separator) + b;
    let left = split_on(a, separator);
    let right = split_on(b, separator);
    if b.len() == 0 {
        assert(whole =~= a.push(separator));
        assert(whole.drop_last() =~= a);
        assert(left.push(Seq::empty()) =~= left + right);
    } else {
        pieces_of_two_texts(a, b.drop_last(), separator);
        pieces_join_to_the_text(b.drop_last(), separator);
        let shorter = split_on(b.drop_last(), separator);
        assert(whole.drop_last() =~= a.push(separator) + b.drop_last());
        assert(whole.last() == b.last());
        if b.last() == separator {
            assert((left + shorter).push(Seq::empty()) =~= left + right);
        } else {
            assert((left + shorter).drop_last() =~= left + shorter.drop_last());
            assert((left + shorter).last() == shorter.last());
            assert(split_on(whole, separator) =~= left + right);
        }
    }
}

/// Joining goes from the front as well: the first part, then the separator, then the rest.
pub proof fn first_part_comes_first(first: Seq<char>, rest: Seq<Seq<char>>, separator: Seq<char>)
    ensures
        joined(seq![first], separator) == first,
        rest.len() > 0 ==> joined(seq![first] + rest, separator) == first + separator + joined(
            rest,
            separator,
        ),
        joined(Seq::<Seq<char>>::empty(), separator).len() == 0,
    decreases rest.len(),
{
    if rest.len() > 0 {
        let all = seq![first] + rest;
        assert(all.last() == rest.last());
        assert(all.drop_last() =~= seq![first] + rest.drop_last());
        if rest.len() == 1 {
            assert(all.drop_last() =~= seq![first]);
            assert(joined(seq![first], separator) == first);
            assert(joined(rest, separator) == rest[0]);
            assert(joined(all, separator) == joined(all.drop_last(), separator) + separator
                + all.last());
        } else {
            first_part_comes_first(first, rest.drop_last(), separator);
            assert(joined(all, separator) =~= first + separator + joined(rest, separator));
        }
    }
}

/// Dropping the empty pieces keeps every other piece, in order.
pub proof fn only_empty_pieces_go(a: Seq<Seq<char>>, b: Seq<Seq<char>>, piece: Seq<char>)
    ensures
        non_empty(a + b) == non_empty(a) + non_empty(b),
        piece.len() > 0 ==> non_empty(seq![piece]) == seq![piece],
        piece.len() == 0 ==> non_empty(seq![piece]).len() == 0,
        non_empty(Seq::<Seq<char>>::empty()).len() == 0,
    decreases b.len(),
{
    if b.len() == 0 {
        assert(a + b =~= a);
        assert(non_empty(a) + non_empty(b) =~= non_empty(a));
    } else {
        only_empty_pieces_go(a, b.drop_last(), piece);
        assert((a + b).drop_last() =~= a + b.drop_last());
        assert((a + b).last() == b.last());
        assert(non_empty(a + b) =~= non_empty(a) + non_empty(b));
    }
    assert(seq![piece].drop_last() =~= Seq::<Seq<char>>::empty());
    assert(non_empty(seq![piece].drop_last()) =~= Seq::<Seq<char>>::empty());
    assert(piece.len() > 0 ==> non_empty(seq![piece]) =~= seq![piece]);
}

/// A digit in front of a run of digits counts as many tens as digits follow it.
pub proof fn leading_digit_counts_tens(first: char, rest: Seq<char>)
    requires
        is_digit(first),
        all_digits(rest),
    ensures
        decimal(seq![first] + rest) == (first as int - 48) * vstd::arithmetic::power::pow(10, rest.len()) + decimal(rest),
    decreases rest.len(),
{
    let all = seq![first] + rest;
    if rest.len() == 0 {
        assert(all.drop_last() =~= Seq::<char>::empty());
        assert(decimal(all.drop_last()) == 0);
        vstd::arithmetic::power::lemma_pow0(10);
    } else {
        assert(all.drop_last() =~= seq![first] + rest.drop_last());
        assert(all.last() == rest.last());
        assert(all_digits(rest.drop_last()));
        leading_digit_counts_tens(first, rest.drop_last());
        assert(is_digit(rest[rest.len() - 1]));
        let tens = vstd::arithmetic::power::pow(10, rest.drop_last().len());
        let d = first as int - 48;
        let tail = decimal(rest.drop_last()) as int;
        assert(vstd::arithmetic::power::pow(10, rest.len()) == 10 * tens) by {
            reveal(vstd::arithmetic::power::pow);
        }
        assert((d * tens + tail) * 10 == d * (10 * tens) + tail * 10) by (nonlinear_arith);
    }
}

/// Every index is written as a text that is read as that index, with or without a `+` in front;
/// a text that holds anything but digits behind the sign is no index.
pub proof fn indices_read_back(n: usize, s: Seq<char>, i: int)
    ensures
        index_of_text(digits(n as nat)) == Some(n),
        index_of_text(seq!['+'] + digits(n as nat)) == Some(n),
        index_of_text(Seq::<char>::empty()) == None::<usize>,
        0 <= i < s.len() && !('0' <= s[i] <= '9') && !(i == 0 && s[i] == '+') ==> index_of_text(s)
            is None,
{
    digits_read_back(n as nat);
    let written = digits(n as nat);
    assert(is_digit(written[0]));
    assert((seq!['+'] + written).drop_first() =~= written);
    if 0 <= i < s.len() && !('0' <= s[i] <= '9') && !(i == 0 && s[i] == '+') {
        let part = unsigned_part(s);
        if s[0] == '+' {
            assert(part[i - 1] == s[i]);
        } else {
            assert(part[i] == s[i]);
        }
    }
}

/// A number is written without leading zeros.
pub proof fn no_leading_zero(n: nat)
    ensures
        digits(n).len() > 0,
        digits(n)[0] == '0' ==> n == 0,
    decreases n,
{
    if n >= 10 {
        no_leading_zero(n / 10);
        assert(digits(n)[0] == digits(n / 10)[0]);
    }
}

/// Whole numbers that differ are written differently.
pub proof fn signed_digits_tell_numbers_apart(a: int, b: int)
    ensures
        signed_digits(a) == signed_digits(b) ==> a == b,
        a < 0 ==> signed_digits(a)[0] == '-' && signed_digits(a).drop_first() == digits(
            (-a) as nat,
        ),
        a >= 0 ==> index_of_text(signed_digits(a)) == (if a <= usize::MAX {
            Some(a as usize)
        } else {
            None
        }),
{
    reveal_strlit("-");
    digits_read_back(if a < 0 { (-a) as nat } else { a as nat });
    digits_read_back(if b < 0 { (-b) as nat } else { b as nat });
    if a < 0 {
        assert(signed_digits(a).drop_first() =~= digits((-a) as nat));
    } else {
        assert(is_digit(digits(a as nat)[0]));
    }
    if b < 0 {
        assert(signed_digits(b).drop_first() =~= digits((-b) as nat));
    } else {
        assert(is_digit(digits(b as nat)[0]));
    }
}

/// Where two texts first differ, the order of the two characters decides; a text comes before
/// every longer text that begins with it.
pub proof fn first_difference_decides(
    common: Seq<char>,
    x: char,
    a: Seq<char>,
    y: char,
    b: Seq<char>,
)
    requires
        x != y,
    ensures
        precedes(common.push(x) + a, common.push(y) + b) <==> x < y,
        precedes(common, common.push(x) + a),
        !precedes(common.push(x) + a, common),
    decreases common.len(),
{
    if common.len() > 0 {
        first_difference_decides(common.drop_first(), x, a, y, b);
        assert((common.push(x) + a).drop_first() =~= common.drop_first().push(x) + a);
        assert((common.push(y) + b).drop_first() =~= common.drop_first().push(y) + b);
    }
}

/// Writing small touches the capitals `A` to `Z` alone, each by the same step, and leaves none.
pub proof fn capitals_become_small(s: Seq<char>, i: int)
    requires
        0 <= i < s.len(),
    ensures
        ascii_lower(s).len() == s.len(),
        !('A' <= ascii_lower(s)[i] <= 'Z'),
        'A' <= s[i] <= 'Z' ==> ascii_lower(s)[i] as int - 'a' as int == s[i] as int - 'A' as int,
        !('A' <= s[i] <= 'Z') ==> ascii_lower(s)[i] == s[i],
        ascii_lower(ascii_lower(s)) == ascii_lower(s),
{
    let once = ascii_lower(s);
    assert forall|j: int| 0 <= j < s.len() implies #[trigger] ascii_lower(once)[j] == once[j] by {
        assert(once[j] == lower_char(s[j]));
    }
    assert(ascii_lower(once) =~= once);
}

/// A name is qualified exactly if it can be cut around a `::`.
pub proof fn qualified_names_are_cut_in_two(a: Seq<char>, b: Seq<char>, s: Seq<char>)
    ensures
        has_double_colon(a + "::"@ + b),
        !s.contains(':') ==> !has_double_colon(s),
{
    reveal_strlit("::");
    let whole = a + "::"@ + b;
    assert(whole[a.len() as int] == ':' && whole[a.len() as int + 1] == ':');
}

} // verus!
