//! Lines, fields and decimal numbers in the kernel's text files.

use vstd::prelude::*;

verus! {

/// White space between fields: the characters with the Unicode property `White_Space`.
pub open spec fn is_space(c: char) -> bool {
    let n = c as int;
    ||| 0x09 <= n <= 0x0D
    ||| n == 0x20
    ||| n == 0x85
    ||| n == 0xA0
    ||| n == 0x1680
    ||| 0x2000 <= n <= 0x200A
    ||| n == 0x2028
    ||| n == 0x2029
    ||| n == 0x202F
    ||| n == 0x205F
    ||| n == 0x3000
}

/// What separates one line from the next. A carriage return before it is white space, and so
/// belongs to no field.
pub open spec fn is_newline(c: char) -> bool {
    c == '\n'
}

/// The pieces of `s` between its separators, from left to right; there is always one more piece
/// than there are separators.
pub open spec fn pieces(s: Seq<char>, separator: spec_fn(char) -> bool) -> Seq<Seq<char>>
    decreases s.len(),
{
    if s.len() == 0 {
        seq![Seq::empty()]
    } else {
        let before = pieces(s.drop_last(), separator);
        if separator(s.last()) {
            before.push(Seq::empty())
        } else {
            before.drop_last().push(before.last().push(s.last()))
        }
    }
}

/// The lines of a text.
pub open spec fn lines(s: Seq<char>) -> Seq<Seq<char>> {
    pieces(s, |c: char| is_newline(c))
}

/// The fields of a line: the longest stretches without white space.
pub open spec fn fields(s: Seq<char>) -> Seq<Seq<char>> {
    pieces(s, |c: char| is_space(c)).filter(|p: Seq<char>| p.len() > 0)
}

/// The contents of a list of texts.
pub open spec fn contents(v: Seq<Vec<char>>) -> Seq<Seq<char>> {
    v.map_values(|x: Vec<char>| x@)
}

/// Whether `c` is one of the ten digits.
pub open spec fn is_digit(c: char) -> bool {
    '0' <= c <= '9'
}

/// The number that a sequence of digits denotes.
pub open spec fn decimal(s: Seq<char>) -> int
    decreases s.len(),
{
    if s.len() == 0 {
        0
    } else {
        decimal(s.drop_last()) * 10 + (s.last() as int - '0' as int)
    }
}

/// A number without its optional plus sign.
pub open spec fn unsigned(s: Seq<char>) -> Seq<char> {
    if s.len() > 0 && s[0] == '+' {
        s.skip(1)
    } else {
        s
    }
}

/// The number that a field denotes: an optional plus sign and at least one digit, with a value
/// that fits 64 bits.
pub open spec fn number(s: Seq<char>) -> Option<u64> {
    let digits = unsigned(s);
    if digits.len() > 0 && (forall|i: int| 0 <= i < digits.len() ==> is_digit(#[trigger] digits[i]))
        && decimal(digits) <= u64::MAX {
        Some(decimal(digits) as u64)
    } else {
        None
    }
}

/// Whether a line starts with `prefix`.
pub open spec fn starts_with(s: Seq<char>, prefix: Seq<char>) -> bool {
    prefix.len() <= s.len() && s.take(prefix.len() as int) == prefix
}

/// Tells white space from everything else.
pub fn is_white_space(c: char) -> (r: bool)
    ensures
        r == is_space(c),
{
    let n: u32 = c as u32;
    (0x09 <= n && n <= 0x0D) || n == 0x20 || n == 0x85 || n == 0xA0 || n == 0x1680 || (0x2000 <= n
        && n <= 0x200A) || n == 0x2028 || n == 0x2029 || n == 0x202F || n == 0x205F || n == 0x3000
}

/// The characters of a text.
fn chars_of(text: &str) -> (r: Vec<char>)
    ensures
        r@ == text@,
{
    let mut r: Vec<char> = Vec::new();
    let chars = text.chars();
    for c in it: chars
        invariant
            it.seq() == text@,
            r@ == text@.take(it.index() as int),
    {
        r.push(c);
    }
    r
}

/// Splits a text into its lines.
pub fn split_lines(text: &str) -> (r: Vec<Vec<char>>)
    ensures
        contents(r@) == lines(text@),
{
    let ghost newline = |c: char| is_newline(c);
    let chars: Vec<char> = chars_of(text);
    let mut done: Vec<Vec<char>> = Vec::new();
    let mut current: Vec<char> = Vec::new();
    let mut i: usize = 0;
    assert(contents(done@).push(current@) =~= pieces(chars@.take(0), newline));
    while i < chars.len()
        invariant
            i <= chars.len(),
            newline == (|c: char| is_newline(c)),
            contents(done@).push(current@) == pieces(chars@.take(i as int), newline),
        decreases chars.len() - i,
    {
        let c: char = chars[i];
        let ghost before = contents(done@);
        let ghost piece = current@;
        assert(chars@.take(i + 1).drop_last() =~= chars@.take(i as int));
        assert(before.push(piece).drop_last() =~= before);
        if c == '\n' {
            done.push(current);
            current = Vec::new();
            assert(contents(done@) =~= before.push(piece));
        } else {
            current.push(c);
        }
        i += 1;
    }
    assert(chars@.take(chars.len() as int) =~= text@);
    let ghost before = contents(done@);
    let ghost piece = current@;
    done.push(current);
    assert(contents(done@) =~= before.push(piece));
    done
}

/// Splits a line into its fields.
pub fn split_fields(line: &Vec<char>) -> (r: Vec<Vec<char>>)
    ensures
        contents(r@) == fields(line@),
{
    let ghost space = |c: char| is_space(c);
    let ghost full = |p: Seq<char>| p.len() > 0;
    let mut done: Vec<Vec<char>> = Vec::new();
    let mut current: Vec<char> = Vec::new();
    let ghost mut all: Seq<Seq<char>> = Seq::empty();
    let mut i: usize = 0;
    proof {
        reveal(Seq::filter);
        assert(all.push(current@) =~= pieces(line@.take(0), space));
        assert(contents(done@) =~= all.filter(full));
    }
    while i < line.len()
        invariant
            i <= line.len(),
            space == (|c: char| is_space(c)),
            full == (|p: Seq<char>| p.len() > 0),
            all.push(current@) == pieces(line@.take(i as int), space),
            contents(done@) == all.filter(full),
        decreases line.len() - i,
    {
        let c: char = line[i];
        let ghost before = contents(done@);
        let ghost piece = current@;
        let ghost old_all = all;
        assert(line@.take(i + 1).drop_last() =~= line@.take(i as int));
        assert(all.push(piece).drop_last() =~= all);
        if is_white_space(c) {
            proof {
                all = all.push(piece);
                lemma_filter_push(old_all, piece, full);
            }
            if current.len() > 0 {
                done.push(current);
                assert(contents(done@) =~= before.push(piece));
            }
            current = Vec::new();
        } else {
            current.push(c);
        }
        i += 1;
    }
    assert(line@.take(line.len() as int) =~= line@);
    let ghost before = contents(done@);
    let ghost piece = current@;
    proof {
        lemma_filter_push(all, piece, full);
    }
    if current.len() > 0 {
        done.push(current);
        assert(contents(done@) =~= before.push(piece));
    }
    done
}

/// The first field of a text, if it has one.
pub fn first_field(text: &str) -> (r: Option<Vec<char>>)
    ensures
        match r {
            Some(field) => fields(text@).len() > 0 && field@ == fields(text@)[0],
            None => fields(text@).len() == 0,
        },
{
    let mut all: Vec<Vec<char>> = split_fields(&chars_of(text));
    if all.len() == 0 {
        return None;
    }
    assert(contents(all@)[0] == all[0]@);
    Some(all.swap_remove(0))
}

/// Reads the number that the rest of a field denotes, from position `from` on.
pub fn parse_number(field: &Vec<char>, from: usize) -> (r: Option<u64>)
    requires
        from <= field.len(),
    ensures
        r == number(field@.skip(from as int)),
{
    let ghost text = field@.skip(from as int);
    let ghost digits = unsigned(text);
    let start: usize = if from < field.len() && field[from] == '+' {
        from + 1
    } else {
        from
    };
    assert(digits =~= field@.skip(start as int));
    if start == field.len() {
        return None;
    }
    let mut value: u64 = 0;
    let mut i: usize = start;
    while i < field.len()
        invariant
            start <= i <= field.len(),
            text == field@.skip(from as int),
            digits == field@.skip(start as int),
            digits == unsigned(text),
            value == decimal(digits.take(i - start)),
            forall|k: int| 0 <= k < i - start ==> is_digit(#[trigger] digits[k]),
        decreases field.len() - i,
    {
        let c: char = field[i];
        assert(digits[i - start] == c);
        if c < '0' || c > '9' {
            return None;
        }
        let digit: u64 = c as u64 - 48;
        let ghost longer = digits.take(i - start + 1);
        assert(longer.drop_last() =~= digits.take(i - start));
        if value > (u64::MAX - digit) / 10 {
            proof {
                assert(decimal(longer) > u64::MAX);
                if forall|k: int| 0 <= k < digits.len() ==> is_digit(#[trigger] digits[k]) {
                    lemma_decimal_monotone(digits, i - start + 1);
                }
            }
            return None;
        }
        value = value * 10 + digit;
        i += 1;
    }
    assert(digits.take(digits.len() as int) =~= digits);
    Some(value)
}

/// Tells whether a line starts with `prefix`.
pub fn has_prefix(line: &Vec<char>, prefix: &str) -> (r: bool)
    ensures
        r == starts_with(line@, prefix@),
{
    let wanted: Vec<char> = chars_of(prefix);
    if line.len() < wanted.len() {
        return false;
    }
    let mut i: usize = 0;
    while i < wanted.len()
        invariant
            i <= wanted.len() <= line.len(),
            wanted@ == prefix@,
            forall|k: int| 0 <= k < i ==> line[k] == wanted[k],
        decreases wanted.len() - i,
    {
        if line[i] != wanted[i] {
            assert(line@.take(wanted.len() as int)[i as int] != wanted[i as int]);
            return false;
        }
        i += 1;
    }
    assert(line@.take(wanted.len() as int) =~= prefix@);
    true
}

/// A sequence of digits denotes no less than any sequence that it starts with.
proof fn lemma_decimal_monotone(s: Seq<char>, n: int)
    requires
        0 <= n <= s.len(),
        forall|k: int| 0 <= k < s.len() ==> is_digit(#[trigger] s[k]),
    ensures
        0 <= decimal(s.take(n)) <= decimal(s),
    decreases s.len(),
{
    if n == s.len() {
        assert(s.take(n) =~= s);
        if n > 0 {
            lemma_decimal_monotone(s.drop_last(), n - 1);
            assert(s.drop_last().take(n - 1) =~= s.drop_last());
            assert(is_digit(s[n - 1]));
        }
    } else {
        assert(s.drop_last().take(n) =~= s.take(n));
        lemma_decimal_monotone(s.drop_last(), n);
        assert(is_digit(s[s.len() - 1]));
    }
}

/// The first piece of a text is the text up to its first separator.
proof fn lemma_first_piece(s: Seq<char>, separator: spec_fn(char) -> bool, n: int)
    requires
        0 <= n <= s.len(),
        forall|k: int| 0 <= k < n ==> !separator(#[trigger] s[k]),
    ensures
        pieces(s, separator).len() > 0,
        n <= pieces(s, separator)[0].len(),
        pieces(s, separator)[0].take(n) == s.take(n),
    decreases s.len(),
{
    if s.len() == 0 {
        assert(pieces(s, separator)[0].take(n) =~= s.take(n));
    } else {
        let before = pieces(s.drop_last(), separator);
        if n < s.len() {
            lemma_first_piece(s.drop_last(), separator, n);
            assert(s.drop_last().take(n) =~= s.take(n));
            assert(pieces(s, separator)[0].take(n) =~= before[0].take(n));
        } else {
            lemma_only_piece(s, separator);
        }
    }
}

/// A text without separators is a single piece.
proof fn lemma_only_piece(s: Seq<char>, separator: spec_fn(char) -> bool)
    requires
        forall|k: int| 0 <= k < s.len() ==> !separator(#[trigger] s[k]),
    ensures
        pieces(s, separator) == seq![s],
    decreases s.len(),
{
    if s.len() == 0 {
        assert(s =~= Seq::empty());
    } else {
        lemma_only_piece(s.drop_last(), separator);
        assert(!separator(s[s.len() - 1]));
        assert(s.drop_last().push(s.last()) =~= s);
        assert(pieces(s, separator) =~= seq![s]);
    }
}

/// Filtering keeps a first element that is to be kept in front.
proof fn lemma_filter_first<A>(s: Seq<A>, keep: spec_fn(A) -> bool)
    requires
        s.len() > 0,
        keep(s[0]),
    ensures
        s.filter(keep).len() > 0,
        s.filter(keep)[0] == s[0],
    decreases s.len(),
{
    lemma_filter_push(s.drop_last(), s.last(), keep);
    assert(s.drop_last().push(s.last()) =~= s);
    if s.len() > 1 {
        lemma_filter_first(s.drop_last(), keep);
    } else {
        reveal(Seq::filter);
        assert(s.drop_last() =~= Seq::empty());
    }
}

/// A line that starts with a word has a first field that starts with that word.
pub proof fn lemma_first_field(line: Seq<char>, word: Seq<char>)
    requires
        word.len() > 0,
        starts_with(line, word),
        forall|k: int| 0 <= k < word.len() ==> !is_space(#[trigger] word[k]),
    ensures
        fields(line).len() > 0,
        starts_with(fields(line)[0], word),
{
    let space = |c: char| is_space(c);
    let n = word.len() as int;
    assert forall|k: int| 0 <= k < n implies !space(#[trigger] line[k]) by {
        assert(line.take(n)[k] == word[k]);
    }
    lemma_first_piece(line, space, n);
    lemma_filter_first(pieces(line, space), |p: Seq<char>| p.len() > 0);
}

/// Filtering a sequence that has grown by one element.
proof fn lemma_filter_push<A>(s: Seq<A>, a: A, keep: spec_fn(A) -> bool)
    ensures
        s.push(a).filter(keep) == if keep(a) {
            s.filter(keep).push(a)
        } else {
            s.filter(keep)
        },
{
    reveal(Seq::filter);
    assert(s.push(a).drop_last() =~= s);
}

/// There is always a piece.
proof fn lemma_pieces_exist(s: Seq<char>, separator: spec_fn(char) -> bool)
    ensures
        pieces(s, separator).len() > 0,
    decreases s.len(),
{
    if s.len() > 0 {
        lemma_pieces_exist(s.drop_last(), separator);
    }
}

/// The pieces on both sides of a separator.
proof fn lemma_pieces_around(a: Seq<char>, c: char, b: Seq<char>, separator: spec_fn(char) -> bool)
    requires
        separator(c),
    ensures
        pieces(a.push(c) + b, separator) == pieces(a, separator) + pieces(b, separator),
    decreases b.len(),
{
    let whole = a.push(c) + b;
    if b.len() == 0 {
        assert(whole =~= a.push(c));
        assert(whole.drop_last() =~= a);
        assert(pieces(whole, separator) =~= pieces(a, separator) + pieces(b, separator));
    } else {
        lemma_pieces_around(a, c, b.drop_last(), separator);
        lemma_pieces_exist(b.drop_last(), separator);
        assert(whole.drop_last() =~= a.push(c) + b.drop_last());
        assert(pieces(whole, separator) =~= pieces(a, separator) + pieces(b, separator));
    }
}

/// A newline ends one line and starts the next: the lines of a text are those before it and those
/// after it.
pub proof fn lemma_newline_splits_lines(a: Seq<char>, b: Seq<char>)
    ensures
        lines(a.push('\n') + b) == lines(a) + lines(b),
{
    lemma_pieces_around(a, '\n', b, |c: char| is_newline(c));
}

/// A text without a newline is one line.
pub proof fn lemma_single_line(s: Seq<char>)
    requires
        forall|i: int| 0 <= i < s.len() ==> #[trigger] s[i] != '\n',
    ensures
        lines(s) == seq![s],
{
    lemma_only_piece(s, |c: char| is_newline(c));
}

/// White space ends one field and starts the next: the fields of a line are those before it and
/// those after it.
pub proof fn lemma_space_splits_fields(a: Seq<char>, c: char, b: Seq<char>)
    requires
        is_space(c),
    ensures
        fields(a.push(c) + b) == fields(a) + fields(b),
{
    let space = |c: char| is_space(c);
    lemma_pieces_around(a, c, b, space);
    Seq::filter_distributes_over_add(
        pieces(a, space),
        pieces(b, space),
        |p: Seq<char>| p.len() > 0,
    );
}

/// A word is one field, and nothing at all is none.
pub proof fn lemma_single_field(s: Seq<char>)
    requires
        forall|i: int| 0 <= i < s.len() ==> !is_space(#[trigger] s[i]),
    ensures
        s.len() > 0 ==> fields(s) == seq![s],
        s.len() == 0 ==> fields(s) == Seq::<Seq<char>>::empty(),
{
    let full = |p: Seq<char>| p.len() > 0;
    lemma_only_piece(s, |c: char| is_space(c));
    lemma_filter_push(Seq::<Seq<char>>::empty(), s, full);
    reveal(Seq::filter);
    assert(Seq::<Seq<char>>::empty().push(s) =~= seq![s]);
    assert(Seq::<Seq<char>>::empty().filter(full) =~= Seq::empty());
    assert(Seq::<Seq<char>>::empty().push(s) =~= seq![s]);
}

/// Blanks, tabs, carriage returns and newlines are white space; letters, digits and the plus sign
/// are not.
pub proof fn lemma_white_space(c: char)
    ensures
        c == ' ' || c == '\t' || c == '\r' || c == '\n' ==> is_space(c),
        '!' <= c <= '~' ==> !is_space(c),
{
}

/// A single digit denotes its value.
pub proof fn lemma_digit_value(c: char)
    ensures
        '0' <= c <= '9' ==> number(seq![c]) == Some((c as int - '0' as int) as u64),
        !('0' <= c <= '9') ==> number(seq![c]) is None,
        number(Seq::<char>::empty()) is None,
{
    let s = seq![c];
    assert(s.drop_last() =~= Seq::empty());
    assert(s.skip(1) =~= Seq::empty());
    if '0' <= c <= '9' {
        assert(unsigned(s) == s);
        assert(decimal(s.drop_last()) == 0);
        assert(decimal(s) == c as int - '0' as int);
    } else if c != '+' {
        assert(!is_digit(s[0]));
    }
}

/// One more digit makes a number ten times as large and adds the digit, as long as the result
/// fits 64 bits.
pub proof fn lemma_next_digit(s: Seq<char>, c: char)
    requires
        number(s) is Some,
    ensures
        '0' <= c <= '9' ==> number(s.push(c)) == if number(s)->0 * 10 + (c as int - '0' as int)
            <= u64::MAX {
            Some((number(s)->0 * 10 + (c as int - '0' as int)) as u64)
        } else {
            None
        },
        !('0' <= c <= '9') ==> number(s.push(c)) is None,
{
    let d = unsigned(s);
    let e = unsigned(s.push(c));
    assert(s.len() > 0) by {
        if s.len() == 0 {
            assert(d.len() == 0);
        }
    }
    assert(e =~= d.push(c));
    assert(e.drop_last() =~= d);
    assert(e[d.len() as int] == c);
    lemma_decimal_monotone(d, 0);
    assert(decimal(d) >= 0);
    if '0' <= c <= '9' {
        assert forall|i: int| 0 <= i < e.len() implies is_digit(#[trigger] e[i]) by {
            if i < d.len() {
                assert(is_digit(d[i]));
            }
        }
    } else {
        assert(!is_digit(e[d.len() as int]));
    }
}

/// What is no number does not become one by what follows, unless all that is there is a sign.
pub proof fn lemma_no_number_stays_none(s: Seq<char>, c: char)
    requires
        s.len() > 0,
        s != seq!['+'],
        number(s) is None,
    ensures
        number(s.push(c)) is None,
{
    let d = unsigned(s);
    let e = unsigned(s.push(c));
    assert(e =~= d.push(c));
    assert(e.drop_last() =~= d);
    assert(d.len() > 0) by {
        if d.len() == 0 {
            assert(s =~= seq!['+']);
        }
    }
    if exists|i: int| 0 <= i < d.len() && !is_digit(#[trigger] d[i]) {
        let i = choose|i: int| 0 <= i < d.len() && !is_digit(#[trigger] d[i]);
        assert(!is_digit(e[i]));
    } else if forall|i: int| 0 <= i < e.len() ==> is_digit(#[trigger] e[i]) {
        lemma_decimal_monotone(e, d.len() as int);
        assert(e.take(d.len() as int) =~= d);
    }
}

/// A plus sign in front of a number without one changes nothing; a second one does.
pub proof fn lemma_plus_sign(s: Seq<char>)
    ensures
        s.len() == 0 || s[0] != '+' ==> number(seq!['+'] + s) == number(s),
        s.len() > 0 && s[0] == '+' ==> number(seq!['+'] + s) is None,
{
    let t = seq!['+'] + s;
    assert(t.skip(1) =~= s);
    if s.len() > 0 && s[0] == '+' {
        assert(!is_digit(unsigned(t)[0]));
    }
}

/// A line starts with a word if and only if it has the same characters at the same places.
pub proof fn lemma_prefix_matches(s: Seq<char>, prefix: Seq<char>)
    ensures
        starts_with(s, prefix) <==> prefix.len() <= s.len() && forall|i: int|
            0 <= i < prefix.len() ==> s[i] == #[trigger] prefix[i],
{
    if prefix.len() <= s.len() && forall|i: int|
        0 <= i < prefix.len() ==> s[i] == #[trigger] prefix[i] {
        assert(s.take(prefix.len() as int) =~= prefix);
    }
    if starts_with(s, prefix) {
        assert forall|i: int| 0 <= i < prefix.len() implies s[i] == #[trigger] prefix[i] by {
            assert(s.take(prefix.len() as int)[i] == s[i]);
        }
    }
}

/// A list of texts has the contents of its members, in their order.
pub proof fn lemma_contents_of_members(v: Seq<Vec<char>>, i: int)
    ensures
        contents(v).len() == v.len(),
        0 <= i < v.len() ==> contents(v)[i] == v[i]@,
{
}

} // verus!
