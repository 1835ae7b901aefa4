use vstd::prelude::*;

use crate::text::{append_chars, chars_of, string_of};

verus! {

/// Largest row or column number that a coordinate can hold.
pub const MAX_COORD: u32 = 0xFFFF_FFFF;

/// One corner of a reference: a 1-based column and row, each with its own absolute flag.
#[derive(Clone, Copy, Debug, PartialEq, Eq, Structural)]
pub struct Coordinate {
    pub col: u32,
    pub row: u32,
    pub col_abs: bool,
    pub row_abs: bool,
}

impl Coordinate {
    /// Both numbers are at least one.
    pub open spec fn wf(self) -> bool {
        self.col >= 1 && self.row >= 1
    }
}

pub open spec fn is_upper(c: char) -> bool {
    'A' <= c && c <= 'Z'
}

pub open spec fn is_digit(c: char) -> bool {
    '0' <= c && c <= '9'
}

/// Characters that a sheet name may hold without quotes.
pub open spec fn is_name_char(c: char) -> bool {
    is_upper(c) || ('a' <= c && c <= 'z') || is_digit(c) || c == '_'
}

pub open spec fn all_upper(s: Seq<char>) -> bool {
    forall|i: int| 0 <= i < s.len() ==> is_upper(#[trigger] s[i])
}

pub open spec fn all_digits(s: Seq<char>) -> bool {
    forall|i: int| 0 <= i < s.len() ==> is_digit(#[trigger] s[i])
}

pub open spec fn all_name_chars(s: Seq<char>) -> bool {
    forall|i: int| 0 <= i < s.len() ==> is_name_char(#[trigger] s[i])
}

/// The column number written by a run of letters: `A` is 1, `Z` 26, `AA` 27.
pub open spec fn col_value(s: Seq<char>) -> int
    decreases s.len(),
{
    if s.len() == 0 {
        0
    } else {
        col_value(s.drop_last()) * 26 + (s.last() as int - 'A' as int + 1)
    }
}

/// The number written by a run of decimal digits.
pub open spec fn decimal_value(s: Seq<char>) -> int
    decreases s.len(),
{
    if s.len() == 0 {
        0
    } else {
        decimal_value(s.drop_last()) * 10 + (s.last() as int - '0' as int)
    }
}

/// The letters that name column `n`.
pub open spec fn col_letters(n: nat) -> Seq<char>
    decreases n,
{
    if n == 0 {
        seq![]
    } else {
        col_letters(((n - 1) / 26) as nat).push((('A' as int) + (n - 1) % 26) as char)
    }
}

/// The decimal digits of `n`, without leading zeros.
pub open spec fn decimal_digits(n: nat) -> Seq<char>
    decreases n,
{
    if n < 10 {
        seq![(('0' as int) + n) as char]
    } else {
        decimal_digits(n / 10).push((('0' as int) + n % 10) as char)
    }
}

/// Number of leading upper-case letters of `s`.
pub open spec fn lead_upper(s: Seq<char>) -> nat
    decreases s.len(),
{
    if s.len() > 0 && is_upper(s[0]) {
        1 + lead_upper(s.drop_first())
    } else {
        0
    }
}

/// Text of one corner: `[$]COL[$]ROW`.
pub open spec fn fmt_coord(c: Coordinate) -> Seq<char> {
    (if c.col_abs { seq!['$'] } else { seq![] }) + col_letters(c.col as nat) + (if c.row_abs {
        seq!['$']
    } else {
        seq![]
    }) + decimal_digits(c.row as nat)
}

/// Reads one corner; `None` where `s` is not `[$]COL[$]ROW` with both numbers in range.
pub open spec fn parse_coord_spec(s: Seq<char>) -> Option<Coordinate> {
    let col_abs = s.len() > 0 && s[0] == '$';
    parse_coord_letters(col_abs, if col_abs { s.drop_first() } else { s })
}

/// The corner after its optional first `$`.
pub open spec fn parse_coord_letters(col_abs: bool, r: Seq<char>) -> Option<Coordinate> {
    let n = lead_upper(r);
    parse_coord_row(col_abs, n, col_value(r.take(n as int)), r.skip(n as int))
}

/// The corner after its `n` column letters, which give `col`.
pub open spec fn parse_coord_row(col_abs: bool, n: nat, col: int, rest: Seq<char>) -> Option<
    Coordinate,
> {
    let row_abs = rest.len() > 0 && rest[0] == '$';
    let d = if row_abs { rest.drop_first() } else { rest };
    let row = decimal_value(d);
    if n > 0 && d.len() > 0 && all_digits(d) && col <= MAX_COORD && 1 <= row <= MAX_COORD {
        Some(Coordinate { col: col as u32, row: row as u32, col_abs, row_abs })
    } else {
        None
    }
}

proof fn lemma_col_value_push(s: Seq<char>, c: char)
    ensures
        col_value(s.push(c)) == col_value(s) * 26 + (c as int - 'A' as int + 1),
{
    assert(s.push(c).drop_last() =~= s);
}

pub(crate) proof fn lemma_decimal_value_push(s: Seq<char>, c: char)
    ensures
        decimal_value(s.push(c)) == decimal_value(s) * 10 + (c as int - '0' as int),
{
    assert(s.push(c).drop_last() =~= s);
}

proof fn lemma_col_value_mono(s: Seq<char>, m: int)
    requires
        all_upper(s),
        0 <= m <= s.len(),
    ensures
        0 <= col_value(s.take(m)) <= col_value(s),
    decreases s.len(),
{
    if m < s.len() {
        lemma_col_value_mono(s.drop_last(), m);
        assert(s.drop_last().take(m) =~= s.take(m));
    } else {
        assert(s.take(m) =~= s);
        if s.len() > 0 {
            lemma_col_value_mono(s.drop_last(), 0);
        }
    }
}

pub(crate) proof fn lemma_decimal_value_mono(s: Seq<char>, m: int)
    requires
        all_digits(s),
        0 <= m <= s.len(),
    ensures
        0 <= decimal_value(s.take(m)) <= decimal_value(s),
    decreases s.len(),
{
    if m < s.len() {
        lemma_decimal_value_mono(s.drop_last(), m);
        assert(s.drop_last().take(m) =~= s.take(m));
    } else {
        assert(s.take(m) =~= s);
        if s.len() > 0 {
            lemma_decimal_value_mono(s.drop_last(), 0);
        }
    }
}

/// `lead_upper` is the length of the longest all-upper-case prefix.
proof fn lemma_lead_upper(s: Seq<char>, k: int)
    requires
        0 <= k <= s.len(),
        all_upper(s.take(k)),
        k == s.len() || !is_upper(s[k]),
    ensures
        lead_upper(s) == k,
    decreases k,
{
    if k > 0 {
        assert(s.take(k)[0] == s[0]);
        let t = s.drop_first();
        assert forall|i: int| 0 <= i < k - 1 implies is_upper(#[trigger] t.take(k - 1)[i]) by {
            assert(t.take(k - 1)[i] == s.take(k)[i + 1]);
        }
        lemma_lead_upper(t, k - 1);
    }
}

fn is_upper_char(c: char) -> (r: bool)
    ensures
        r == is_upper(c),
{
    'A' <= c && c <= 'Z'
}

pub(crate) fn is_digit_char(c: char) -> (r: bool)
    ensures
        r == is_digit(c),
{
    '0' <= c && c <= '9'
}

fn is_name_char_exec(c: char) -> (r: bool)
    ensures
        r == is_name_char(c),
{
    ('A' <= c && c <= 'Z') || ('a' <= c && c <= 'z') || ('0' <= c && c <= '9') || c == '_'
}

/// Reads one corner `[$]COL[$]ROW`.
pub fn parse_coord(s: &Vec<char>) -> (r: Option<Coordinate>)
    ensures
        r == parse_coord_spec(s@),
        r matches Some(c) ==> c.wf(),
{
    let ghost sv = s@;
    let col_abs = s.len() > 0 && s[0] == '$';
    let start: usize = if col_abs { 1 } else { 0 };
    let ghost r0 = if col_abs { sv.drop_first() } else { sv };
    assert(r0 =~= sv.skip(start as int));
    let mut i: usize = start;
    let mut col: u64 = 0;
    let mut too_big = false;
    let ghost mut k0: int = 0;
    while i < s.len() && is_upper_char(s[i])
        invariant
            start <= i <= s.len(),
            sv == s@,
            all_upper(sv.subrange(start as int, i as int)),
            !too_big ==> col == col_value(sv.subrange(start as int, i as int)),
            !too_big && i > start ==> col >= 1,
            col <= MAX_COORD,
            too_big ==> start <= k0 <= i && col_value(sv.subrange(start as int, k0)) > MAX_COORD,
        decreases s.len() - i,
    {
        let ghost prev = sv.subrange(start as int, i as int);
        assert(sv.subrange(start as int, i + 1) =~= prev.push(s[i as int]));
        proof {
            lemma_col_value_push(prev, s[i as int]);
        }
        if !too_big {
            let next = col * 26 + (s[i] as u64 - 'A' as u64 + 1);
            if next > MAX_COORD as u64 {
                too_big = true;
                proof {
                    k0 = i + 1;
                }
            } else {
                col = next;
            }
        }
        i = i + 1;
    }
    let ghost n_ghost = (i - start) as int;
    proof {
        assert(r0.take(n_ghost) =~= sv.subrange(start as int, i as int));
        lemma_lead_upper(r0, n_ghost);
        if too_big {
            let t = sv.subrange(start as int, i as int);
            assert(t.take(k0 - start) =~= sv.subrange(start as int, k0));
            lemma_col_value_mono(t, k0 - start);
        }
    }
    if too_big {
        return None;
    }
    let ghost rest = r0.skip(n_ghost);
    assert(parse_coord_spec(sv) == parse_coord_row(col_abs, n_ghost as nat, col as int, rest));
    if i == start {
        return None;
    }
    let row_abs = i < s.len() && s[i] == '$';
    if row_abs {
        i = i + 1;
    }
    let dstart = i;
    let ghost d = if row_abs { rest.drop_first() } else { rest };
    assert(d =~= sv.skip(dstart as int));
    if i == s.len() {
        return None;
    }
    let mut row: u64 = 0;
    while i < s.len()
        invariant
            dstart <= i <= s.len(),
            sv == s@,
            d == sv.skip(dstart as int),
            parse_coord_spec(sv) == parse_coord_row(col_abs, n_ghost as nat, col as int, rest),
            row_abs == (rest.len() > 0 && rest[0] == '$'),
            d == (if row_abs { rest.drop_first() } else { rest }),
            n_ghost > 0,
            col <= MAX_COORD,
            all_digits(sv.subrange(dstart as int, i as int)),
            row == decimal_value(sv.subrange(dstart as int, i as int)),
            row <= MAX_COORD,
        decreases s.len() - i,
    {
        if !is_digit_char(s[i]) {
            assert(d[i - dstart] == s[i as int]);
            assert(!all_digits(d));
            assert(parse_coord_spec(sv) is None);
            return None;
        }
        let ghost prev = sv.subrange(dstart as int, i as int);
        assert(sv.subrange(dstart as int, i + 1) =~= prev.push(s[i as int]));
        proof {
            lemma_decimal_value_push(prev, s[i as int]);
        }
        row = row * 10 + (s[i] as u64 - '0' as u64);
        i = i + 1;
        if row > MAX_COORD as u64 {
            proof {
                let k = (i - dstart) as int;
                assert(d.take(k) =~= sv.subrange(dstart as int, i as int));
                if all_digits(d) {
                    lemma_decimal_value_mono(d, k);
                    assert(decimal_value(d) > MAX_COORD);
                }
                assert(parse_coord_spec(sv) is None);
            }
            return None;
        }
    }
    assert(d =~= sv.subrange(dstart as int, i as int));
    if row == 0 {
        return None;
    }
    Some(Coordinate { col: col as u32, row: row as u32, col_abs, row_abs })
}

/// The letters that name column `n`.
pub fn col_to_letters(n: u32) -> (r: Vec<char>)
    ensures
        r@ == col_letters(n as nat),
    decreases n,
{
    if n == 0 {
        Vec::new()
    } else {
        let mut r = col_to_letters((n - 1) / 26);
        let k = ((n - 1) % 26) as u8;
        r.push((65u8 + k) as char);
        r
    }
}

/// The decimal digits of `n`.
pub fn to_decimal_digits(n: u32) -> (r: Vec<char>)
    ensures
        r@ == decimal_digits(n as nat),
    decreases n,
{
    if n < 10 {
        let mut r = Vec::new();
        r.push((48u8 + n as u8) as char);
        r
    } else {
        let mut r = to_decimal_digits(n / 10);
        r.push((48u8 + (n % 10) as u8) as char);
        r
    }
}

/// Appends the text of one corner.
fn push_coord(out: &mut Vec<char>, c: Coordinate)
    ensures
        final(out)@ == old(out)@ + fmt_coord(c),
{
    if c.col_abs {
        out.push('$');
    }
    let letters = col_to_letters(c.col);
    append_chars(out, &letters);
    if c.row_abs {
        out.push('$');
    }
    let digits = to_decimal_digits(c.row);
    append_chars(out, &digits);
    assert(final(out)@ =~= old(out)@ + fmt_coord(c));
}

/// A reference: an optional sheet name (empty for none), a first corner and, for a range,
/// a second corner.
#[derive(Clone, Debug)]
pub struct Address {
    pub sheet_name: String,
    pub start: Coordinate,
    pub end: Option<Coordinate>,
}

/// What an `Address` denotes.
pub struct AddressView {
    pub sheet: Seq<char>,
    pub start: Coordinate,
    pub end: Option<Coordinate>,
}

impl View for Address {
    type V = AddressView;

    open spec fn view(&self) -> AddressView {
        AddressView { sheet: self.sheet_name@, start: self.start, end: self.end }
    }
}

impl AddressView {
    /// Every corner has numbers of at least one.
    pub open spec fn wf(self) -> bool {
        self.start.wf() && match self.end {
            Some(e) => e.wf(),
            None => true,
        }
    }
}

/// The quoted form of one character of a sheet name: a quote is doubled.
pub open spec fn quote_piece(c: char) -> Seq<char> {
    if c == '\'' {
        seq!['\'', '\'']
    } else {
        seq![c]
    }
}

/// A sheet name with each quote doubled.
pub open spec fn quote_body(s: Seq<char>) -> Seq<char>
    decreases s.len(),
{
    if s.len() == 0 {
        seq![]
    } else {
        quote_piece(s[0]) + quote_body(s.drop_first())
    }
}

/// The sheet prefix: nothing for no sheet, `name!` for a plain name, `'name'!` otherwise.
pub open spec fn fmt_sheet(s: Seq<char>) -> Seq<char> {
    if s.len() == 0 {
        seq![]
    } else if all_name_chars(s) {
        s.push('!')
    } else {
        seq!['\''] + quote_body(s) + seq!['\'', '!']
    }
}

/// The text of an address.
pub open spec fn fmt_address(a: AddressView) -> Seq<char> {
    fmt_sheet(a.sheet) + fmt_coord(a.start) + match a.end {
        Some(e) => seq![':'] + fmt_coord(e),
        None => seq![],
    }
}

/// Reads a quoted sheet name from position `i`, just after its opening quote: the name
/// and the position after its closing quote.
pub open spec fn unquote(s: Seq<char>, i: int) -> Option<(Seq<char>, int)>
    decreases s.len() - i,
{
    if i < 0 || i >= s.len() {
        None
    } else if s[i] == '\'' {
        if i + 1 < s.len() && s[i + 1] == '\'' {
            prepend(seq!['\''], unquote(s, i + 2))
        } else {
            Some((seq![], i + 1))
        }
    } else {
        prepend(seq![s[i]], unquote(s, i + 1))
    }
}

pub open spec fn prepend(p: Seq<char>, o: Option<(Seq<char>, int)>) -> Option<(Seq<char>, int)> {
    match o {
        Some((n, e)) => Some((p + n, e)),
        None => None,
    }
}

pub open spec fn has_char(s: Seq<char>, c: char) -> bool {
    exists|k: int| 0 <= k < s.len() && s[k] == c
}

pub open spec fn is_first(s: Seq<char>, c: char, k: int) -> bool {
    0 <= k < s.len() && s[k] == c && forall|j: int| 0 <= j < k ==> s[j] != c
}

/// Position of the first `c` in `s`.
pub open spec fn first_index(s: Seq<char>, c: char) -> int {
    choose|k: int| is_first(s, c, k)
}

proof fn lemma_first_index(s: Seq<char>, c: char, k: int)
    requires
        is_first(s, c, k),
    ensures
        first_index(s, c) == k,
        has_char(s, c),
{
    let f = first_index(s, c);
    assert(is_first(s, c, f));
    if f < k {
        assert(s[f] != c);
    }
    if k < f {
        assert(s[k] != c);
    }
}

/// The corners after the sheet prefix: `C` or `C:C`.
pub open spec fn parse_cells(sheet: Seq<char>, t: Seq<char>) -> Option<AddressView> {
    if has_char(t, ':') {
        let k = first_index(t, ':');
        match (parse_coord_spec(t.take(k)), parse_coord_spec(t.skip(k + 1))) {
            (Some(a), Some(b)) => Some(AddressView { sheet, start: a, end: Some(b) }),
            _ => None,
        }
    } else {
        match parse_coord_spec(t) {
            Some(a) => Some(AddressView { sheet, start: a, end: None }),
            None => None,
        }
    }
}

/// Reads `['sheet'!|sheet!][$]COL[$]ROW[:[$]COL[$]ROW]`; `None` where `s` is not of that form.
pub open spec fn parse_address_spec(s: Seq<char>) -> Option<AddressView> {
    if s.len() > 0 && s[0] == '\'' {
        match unquote(s, 1) {
            Some((name, e)) => if e < s.len() && s[e] == '!' {
                parse_cells(name, s.skip(e + 1))
            } else {
                None
            },
            None => None,
        }
    } else if has_char(s, '!') {
        let k = first_index(s, '!');
        if k > 0 && all_name_chars(s.take(k)) {
            parse_cells(s.take(k), s.skip(k + 1))
        } else {
            None
        }
    } else {
        parse_cells(seq![], s)
    }
}

/// The characters of `s` from `lo` up to `hi`.
pub(crate) fn sub_chars(s: &Vec<char>, lo: usize, hi: usize) -> (r: Vec<char>)
    requires
        lo <= hi <= s.len(),
    ensures
        r@ == s@.subrange(lo as int, hi as int),
{
    let mut r: Vec<char> = Vec::new();
    let mut i: usize = lo;
    while i < hi
        invariant
            lo <= i <= hi <= s.len(),
            r@ == s@.subrange(lo as int, i as int),
        decreases hi - i,
    {
        r.push(s[i]);
        i = i + 1;
        assert(r@ =~= s@.subrange(lo as int, i as int));
    }
    r
}

/// Position of the first `c` in `s`.
pub(crate) fn find_char(s: &Vec<char>, c: char) -> (r: Option<usize>)
    ensures
        r is None <==> !has_char(s@, c),
        r matches Some(k) ==> k < s.len(),
        r matches Some(k) ==> is_first(s@, c, k as int) && first_index(s@, c) == k,
{
    let mut i: usize = 0;
    while i < s.len()
        invariant
            i <= s.len(),
            forall|j: int| 0 <= j < i ==> s@[j] != c,
        decreases s.len() - i,
    {
        if s[i] == c {
            proof {
                lemma_first_index(s@, c, i as int);
            }
            return Some(i);
        }
        i = i + 1;
    }
    None
}

/// Reads the corners after the sheet prefix.
fn parse_cells_exec(Ghost(sheet): Ghost<Seq<char>>, t: &Vec<char>) -> (r: Option<(Coordinate, Option<Coordinate>)>)
    ensures
        r matches Some((a, b)) ==> a.wf() && (b matches Some(e) ==> e.wf()),
        r matches Some((a, b)) ==> parse_cells(sheet, t@) == Some(
            AddressView { sheet, start: a, end: b },
        ),
        r is None ==> parse_cells(sheet, t@) is None,
{
    match find_char(t, ':') {
        Some(k) => {
            let left = sub_chars(t, 0, k);
            let right = sub_chars(t, k + 1, t.len());
            assert(left@ =~= t@.take(k as int));
            assert(right@ =~= t@.skip(k + 1));
            match (parse_coord(&left), parse_coord(&right)) {
                (Some(a), Some(b)) => Some((a, Some(b))),
                _ => None,
            }
        },
        None => {
            match parse_coord(t) {
                Some(a) => Some((a, None)),
                None => None,
            }
        },
    }
}

/// Reads a quoted sheet name that starts after the opening quote at position 0.
fn unquote_exec(s: &Vec<char>) -> (r: Option<(Vec<char>, usize)>)
    requires
        s.len() > 0,
    ensures
        r matches Some((n, e)) ==> unquote(s@, 1) == Some((n@, e as int)),
        r is None ==> unquote(s@, 1) is None,
{
    let mut name: Vec<char> = Vec::new();
    let mut i: usize = 1;
    while i < s.len()
        invariant
            1 <= i <= s.len() + 1,
            unquote(s@, 1) == prepend(name@, unquote(s@, i as int)),
        decreases s.len() + 1 - i,
    {
        if s[i] == '\'' {
            if i + 1 < s.len() && s[i + 1] == '\'' {
                name.push('\'');
                assert(unquote(s@, i as int) == prepend(seq!['\''], unquote(s@, i + 2)));
                proof {
                    let old_name = name@.drop_last();
                    assert(old_name + seq!['\''] =~= name@);
                    match unquote(s@, i + 2) {
                        Some((n, e)) => {
                            assert(old_name + (seq!['\''] + n) =~= name@ + n);
                        },
                        None => {},
                    }
                }
                i = i + 2;
            } else {
                assert(name@ + seq![] =~= name@);
                return Some((name, i + 1));
            }
        } else {
            let c = s[i];
            name.push(c);
            proof {
                let old_name = name@.drop_last();
                assert(old_name + seq![c] =~= name@);
                match unquote(s@, i + 1) {
                    Some((n, e)) => {
                        assert(old_name + (seq![c] + n) =~= name@ + n);
                    },
                    None => {},
                }
            }
            i = i + 1;
        }
    }
    None
}

proof fn lemma_quote_body_push(s: Seq<char>, c: char)
    ensures
        quote_body(s.push(c)) == quote_body(s) + quote_piece(c),
    decreases s.len(),
{
    if s.len() == 0 {
        assert(s.push(c).drop_first() =~= Seq::<char>::empty());
        assert(quote_body(Seq::<char>::empty()) == Seq::<char>::empty());
        assert(s.push(c)[0] == c);
        assert(quote_body(s.push(c)) =~= quote_piece(c) + Seq::<char>::empty());
        assert(quote_body(s) == Seq::<char>::empty());
        assert(quote_body(s.push(c)) =~= quote_body(s) + quote_piece(c));
    } else {
        assert(s.push(c).drop_first() =~= s.drop_first().push(c));
        lemma_quote_body_push(s.drop_first(), c);
        assert(quote_body(s.push(c)) =~= quote_body(s) + quote_piece(c));
    }
}

/// Appends the sheet prefix of `name`.
fn push_sheet(out: &mut Vec<char>, name: &Vec<char>)
    ensures
        final(out)@ == old(out)@ + fmt_sheet(name@),
{
    if name.len() == 0 {
        assert(old(out)@ + fmt_sheet(name@) =~= old(out)@);
        return;
    }
    let mut plain = true;
    let mut j: usize = 0;
    while j < name.len()
        invariant
            j <= name.len(),
            plain <==> forall|m: int| 0 <= m < j ==> is_name_char(#[trigger] name@[m]),
        decreases name.len() - j,
    {
        if !is_name_char_exec(name[j]) {
            plain = false;
        }
        j = j + 1;
    }
    if plain {
        append_chars(out, name);
        out.push('!');
    } else {
        out.push('\'');
        let ghost base = out@;
        let mut i: usize = 0;
        while i < name.len()
            invariant
                i <= name.len(),
                out@ == base + quote_body(name@.take(i as int)),
            decreases name.len() - i,
        {
            let c = name[i];
            proof {
                assert(name@.take(i + 1) =~= name@.take(i as int).push(c));
                lemma_quote_body_push(name@.take(i as int), c);
            }
            if c == '\'' {
                out.push('\'');
                out.push('\'');
            } else {
                out.push(c);
            }
            i = i + 1;
            assert(out@ =~= base + quote_body(name@.take(i as int)));
        }
        assert(name@.take(i as int) =~= name@);
        out.push('\'');
        out.push('!');
    }
    assert(final(out)@ =~= old(out)@ + fmt_sheet(name@));
}

impl Address {
    /// A copy of this address.
    pub fn duplicate(&self) -> (r: Address)
        ensures
            r@ == self@,
    {
        Address { sheet_name: self.sheet_name.clone(), start: self.start, end: self.end }
    }

    /// Applies a structural edit of `delta` rows or columns at position `at` (1-based) on
    /// `sheet_name`; returns `false` where the address is to be dropped, and then leaves it
    /// as it was. An address on another sheet is never changed; a range keeps every corner
    /// that is not removed.
    pub fn adjust(
        &mut self,
        sheet_name: &str,
        axis: Axis,
        at: u32,
        delta: u32,
        mode: EditMode,
    ) -> (keep: bool)
        requires
            at >= 1,
        ensures
            keep == adjust_address_spec(old(self)@, sheet_name@, axis, at as int, delta as int, mode) is Some,
            keep ==> Some(final(self)@) == adjust_address_spec(
                old(self)@,
                sheet_name@,
                axis,
                at as int,
                delta as int,
                mode,
            ),
            !keep ==> final(self)@ == old(self)@,
            old(self)@.sheet != sheet_name@ ==> keep && final(self)@ == old(self)@,
            old(self)@.wf() ==> final(self)@.wf(),
    {
        let mine = chars_of(self.sheet_name.as_str());
        let other = chars_of(sheet_name);
        if !same_chars(&mine, &other) {
            return true;
        }
        let s1 = shift_exec(axis_get(self.start, axis), at, delta, mode);
        match self.end {
            None => match s1 {
                Some(x) => {
                    self.start = axis_set(self.start, axis, x);
                    true
                },
                None => false,
            },
            Some(e) => {
                let e1 = shift_exec(axis_get(e, axis), at, delta, mode);
                match (s1, e1) {
                    (Some(x), Some(y)) => {
                        self.start = axis_set(self.start, axis, x);
                        self.end = Some(axis_set(e, axis, y));
                        true
                    },
                    (None, Some(y)) => {
                        if mode == EditMode::Remove {
                            let c = if axis_get(e, axis) > axis_get(self.start, axis) {
                                at
                            } else {
                                at - 1
                            };
                            self.start = axis_set(self.start, axis, c);
                            self.end = Some(axis_set(e, axis, y));
                            true
                        } else {
                            false
                        }
                    },
                    (Some(x), None) => {
                        if mode == EditMode::Remove {
                            let c = if axis_get(self.start, axis) > axis_get(e, axis) {
                                at
                            } else {
                                at - 1
                            };
                            self.start = axis_set(self.start, axis, x);
                            self.end = Some(axis_set(e, axis, c));
                            true
                        } else {
                            false
                        }
                    },
                    (None, None) => false,
                }
            },
        }
    }

    /// The text of this reference: the sheet prefix, quoted where the name holds a character
    /// other than a letter, digit or underscore, then the corners.
    pub fn get_address(&self) -> (r: String)
        ensures
            r@ == fmt_address(self@),
    {
        let mut out: Vec<char> = Vec::new();
        let name = chars_of(self.sheet_name.as_str());
        push_sheet(&mut out, &name);
        push_coord(&mut out, self.start);
        match self.end {
            Some(e) => {
                out.push(':');
                push_coord(&mut out, e);
            },
            None => {},
        }
        assert(out@ =~= fmt_address(self@));
        string_of(&out)
    }

    /// Reads a reference `['sheet'!|sheet!][$]COL[$]ROW[:[$]COL[$]ROW]`; `None` for any
    /// other text.
    pub fn parse(text: &str) -> (r: Option<Address>)
        ensures
            r matches Some(a) ==> parse_address_spec(text@) == Some(a@) && a@.wf(),
            r is None ==> parse_address_spec(text@) is None,
    {
        let s = chars_of(text);
        let ghost sv = s@;
        if s.len() > 0 && s[0] == '\'' {
            match unquote_exec(&s) {
                Some((name, e)) => {
                    if e < s.len() && s[e] == '!' {
                        let t = sub_chars(&s, e + 1, s.len());
                        assert(t@ =~= sv.skip(e + 1));
                        match parse_cells_exec(Ghost(name@), &t) {
                            Some((a, b)) => Some(Address { sheet_name: string_of(&name), start: a, end: b }),
                            None => None,
                        }
                    } else {
                        None
                    }
                },
                None => None,
            }
        } else {
            match find_char(&s, '!') {
                Some(k) => {
                    if k == 0 {
                        return None;
                    }
                    let name = sub_chars(&s, 0, k);
                    assert(name@ =~= sv.take(k as int));
                    let mut j: usize = 0;
                    while j < k
                        invariant
                            j <= k,
                            k == name.len(),
                            0 < k,
                            name@ == sv.take(k as int),
                            sv == s@,
                            sv == text@,
                            first_index(sv, '!') == k,
                            has_char(sv, '!'),
                            !(sv.len() > 0 && sv[0] == '\''),
                            forall|m: int| 0 <= m < j ==> is_name_char(#[trigger] name@[m]),
                        decreases k - j,
                    {
                        if !is_name_char_exec(name[j]) {
                            assert(!all_name_chars(name@));
                            return None;
                        }
                        j = j + 1;
                    }
                    let t = sub_chars(&s, k + 1, s.len());
                    assert(t@ =~= sv.skip(k + 1));
                    match parse_cells_exec(Ghost(name@), &t) {
                        Some((a, b)) => Some(Address { sheet_name: string_of(&name), start: a, end: b }),
                        None => None,
                    }
                },
                None => {
                    let empty: Vec<char> = Vec::new();
                    match parse_cells_exec(Ghost(empty@), &s) {
                        Some((a, b)) => Some(Address { sheet_name: string_of(&empty), start: a, end: b }),
                        None => None,
                    }
                },
            }
        }
    }
}

pub open spec fn is_coord_char(c: char) -> bool {
    c == '$' || is_upper(c) || is_digit(c)
}

proof fn lemma_col_letters(n: nat)
    requires
        n >= 1,
    ensures
        col_letters(n).len() >= 1,
        all_upper(col_letters(n)),
        col_value(col_letters(n)) == n,
    decreases n,
{
    let q = ((n - 1) / 26) as nat;
    let c = (('A' as int) + (n - 1) % 26) as char;
    if q >= 1 {
        lemma_col_letters(q);
    }
    lemma_col_value_push(col_letters(q), c);
    assert(col_letters(n) == col_letters(q).push(c));
    assert forall|i: int| 0 <= i < col_letters(n).len() implies is_upper(#[trigger] col_letters(n)[i]) by {
        if i < col_letters(q).len() {
            assert(col_letters(n)[i] == col_letters(q)[i]);
        }
    }
    assert(q * 26 + (n - 1) % 26 + 1 == n);
}

proof fn lemma_decimal_digits(n: nat)
    ensures
        decimal_digits(n).len() >= 1,
        all_digits(decimal_digits(n)),
        decimal_value(decimal_digits(n)) == n,
    decreases n,
{
    if n < 10 {
        let c = (('0' as int) + n) as char;
        assert(decimal_digits(n) == seq![c]);
        assert(seq![c] == Seq::<char>::empty().push(c));
        lemma_decimal_value_push(Seq::<char>::empty(), c);
    } else {
        let q = n / 10;
        let c = (('0' as int) + n % 10) as char;
        lemma_decimal_digits(q);
        lemma_decimal_value_push(decimal_digits(q), c);
        assert forall|i: int| 0 <= i < decimal_digits(n).len() implies is_digit(#[trigger] decimal_digits(n)[i]) by {
            if i < decimal_digits(q).len() {
                assert(decimal_digits(n)[i] == decimal_digits(q)[i]);
            }
        }
    }
}

/// A corner's text reads back as the same corner, and holds only `$`, letters and digits.
proof fn lemma_coord_round_trip(c: Coordinate)
    requires
        c.wf(),
    ensures
        parse_coord_spec(fmt_coord(c)) == Some(c),
        fmt_coord(c).len() > 0,
        forall|i: int| 0 <= i < fmt_coord(c).len() ==> is_coord_char(#[trigger] fmt_coord(c)[i]),
{
    let l = col_letters(c.col as nat);
    let d = decimal_digits(c.row as nat);
    lemma_col_letters(c.col as nat);
    lemma_decimal_digits(c.row as nat);
    let ca: Seq<char> = if c.col_abs { seq!['$'] } else { seq![] };
    let ra: Seq<char> = if c.row_abs { seq!['$'] } else { seq![] };
    let s = fmt_coord(c);
    assert(s == ca + l + ra + d);
    let rest = ra + d;
    let r = l + rest;
    assert(s =~= ca + r);
    if c.col_abs {
        assert(s[0] == '$');
        assert(s.drop_first() =~= r);
    } else {
        assert(s[0] == l[0]);
        assert(s =~= r);
    }
    assert(r.take(l.len() as int) =~= l);
    assert(r.skip(l.len() as int) =~= rest);
    assert(r[l.len() as int] == rest[0]);
    lemma_lead_upper(r, l.len() as int);
    if c.row_abs {
        assert(rest[0] == '$');
        assert(rest.drop_first() =~= d);
    } else {
        assert(rest =~= d);
    }
    assert(parse_coord_spec(s) == parse_coord_row(c.col_abs, l.len(), c.col as int, rest));
    assert forall|i: int| 0 <= i < s.len() implies is_coord_char(#[trigger] s[i]) by {
        let k = i - ca.len();
        if i < ca.len() {
        } else if k < l.len() {
            assert(s[i] == l[k]);
        } else if k < l.len() + ra.len() {
            assert(s[i] == ra[k - l.len()]);
        } else {
            assert(s[i] == d[k - l.len() - ra.len()]);
        }
    }
}

proof fn lemma_unquote(pre: Seq<char>, name: Seq<char>, rest: Seq<char>)
    requires
        rest.len() > 0,
        rest[0] != '\'',
    ensures
        unquote(pre + quote_body(name) + seq!['\''] + rest, pre.len() as int) == Some(
            (name, pre.len() + quote_body(name).len() + 1 as int),
        ),
    decreases name.len(),
{
    let s = pre + quote_body(name) + seq!['\''] + rest;
    let p = pre.len() as int;
    if name.len() == 0 {
        assert(quote_body(name) == Seq::<char>::empty());
        assert(s[p] == '\'');
        assert(s[p + 1] == rest[0]);
        assert(name =~= seq![]);
    } else {
        let c = name[0];
        let tail = name.drop_first();
        let pre2 = pre + quote_piece(c);
        lemma_unquote(pre2, tail, rest);
        assert(quote_body(name) == quote_piece(c) + quote_body(tail));
        assert(s =~= pre2 + quote_body(tail) + seq!['\''] + rest);
        assert(s[p] == c);
        if c == '\'' {
            assert(s[p + 1] == '\'');
            assert(seq!['\''] + tail =~= name);
        } else {
            assert(seq![c] + tail =~= name);
        }
    }
}

/// The corners' text reads back as the same corners.
pub(crate) proof fn lemma_cells_round_trip(sheet: Seq<char>, a: AddressView)
    requires
        a.wf(),
    ensures
        ({
            let t = fmt_address(a).skip(fmt_sheet(a.sheet).len() as int);
            &&& parse_cells(sheet, t) == Some(AddressView { sheet, start: a.start, end: a.end })
            &&& t.len() > 0
            &&& forall|i: int| 0 <= i < t.len() ==> (#[trigger] t[i] == ':' || is_coord_char(t[i]))
        }),
{
    let t = fmt_address(a).skip(fmt_sheet(a.sheet).len() as int);
    let f = fmt_coord(a.start);
    lemma_coord_round_trip(a.start);
    match a.end {
        Some(e) => {
            let g = fmt_coord(e);
            lemma_coord_round_trip(e);
            assert(t =~= f + seq![':'] + g);
            assert(t[f.len() as int] == ':');
            assert forall|j: int| 0 <= j < f.len() implies t[j] != ':' by {
                assert(t[j] == f[j]);
            }
            lemma_first_index(t, ':', f.len() as int);
            assert(t.take(f.len() as int) =~= f);
            assert(t.skip(f.len() as int + 1) =~= g);
            assert forall|i: int| 0 <= i < t.len() implies (#[trigger] t[i] == ':' || is_coord_char(t[i])) by {
                if i < f.len() {
                    assert(t[i] == f[i]);
                } else if i > f.len() {
                    assert(t[i] == g[i - f.len() - 1]);
                }
            }
        },
        None => {
            assert(t =~= f);
            assert(!has_char(t, ':'));
        },
    }
}

/// Reading the text of a well-formed address gives back the same address.
pub proof fn lemma_address_round_trip(a: AddressView)
    requires
        a.wf(),
    ensures
        parse_address_spec(fmt_address(a)) == Some(a),
{
    let s = fmt_address(a);
    let p = fmt_sheet(a.sheet);
    let t = s.skip(p.len() as int);
    lemma_cells_round_trip(a.sheet, a);
    assert(s =~= p + t);
    if a.sheet.len() == 0 {
        assert(p =~= Seq::<char>::empty());
        assert(s =~= t);
        lemma_cells_round_trip(Seq::<char>::empty(), a);
        assert(a.sheet =~= Seq::<char>::empty());
        assert(t[0] == ':' || is_coord_char(t[0]));
        assert(s[0] == t[0]);
        if has_char(s, '!') {
            let k = choose|k: int| 0 <= k < s.len() && s[k] == '!';
            assert(s[k] == t[k]);
            assert(t[k] == ':' || is_coord_char(t[k]));
        }
    } else if all_name_chars(a.sheet) {
        let k = a.sheet.len() as int;
        assert(is_name_char(s[0]));
        assert(s[k] == '!');
        assert forall|j: int| 0 <= j < k implies s[j] != '!' by {
            assert(s[j] == a.sheet[j]);
        }
        lemma_first_index(s, '!', k);
        assert(s.take(k) =~= a.sheet);
        assert(s.skip(k + 1) =~= t);
    } else {
        let q = quote_body(a.sheet);
        let rest = seq!['!'] + t;
        lemma_unquote(seq!['\''], a.sheet, rest);
        assert(s =~= seq!['\''] + q + seq!['\''] + rest);
        let e: int = q.len() as int + 2;
        assert(s[e] == '!');
        assert(s.skip(e + 1) =~= t);
    }
}

/// The dimension that a structural edit works on.
#[derive(Clone, Copy, Debug, PartialEq, Eq, Structural)]
pub enum Axis {
    Row,
    Column,
}

/// Whether a structural edit inserts or removes rows or columns.
#[derive(Clone, Copy, Debug, PartialEq, Eq, Structural)]
pub enum EditMode {
    Insert,
    Remove,
}

/// One coordinate after an edit of `delta` rows or columns at `at`: `None` where it was
/// removed, or where an insertion would carry it past `MAX_COORD`.
pub open spec fn shift(c: int, at: int, delta: int, mode: EditMode) -> Option<int> {
    match mode {
        EditMode::Insert => if c < at {
            Some(c)
        } else if c + delta <= MAX_COORD {
            Some(c + delta)
        } else {
            None
        },
        EditMode::Remove => if c < at {
            Some(c)
        } else if c < at + delta {
            None
        } else {
            Some(c - delta)
        },
    }
}

pub open spec fn axis_of(c: Coordinate, axis: Axis) -> int {
    match axis {
        Axis::Row => c.row as int,
        Axis::Column => c.col as int,
    }
}

pub open spec fn with_axis(c: Coordinate, axis: Axis, v: int) -> Coordinate {
    match axis {
        Axis::Row => Coordinate { row: v as u32, ..c },
        Axis::Column => Coordinate { col: v as u32, ..c },
    }
}

/// Where a removed corner of a range goes when the other corner stays: to `at` where the
/// other corner lies above the removed span, to `at - 1` where it lies below.
pub open spec fn cut(removed: int, other: int, at: int) -> int {
    if other > removed {
        at
    } else {
        at - 1
    }
}

/// An address after a structural edit on `sheet`; `None` where it is dropped. An address
/// on another sheet is unchanged. A cell is dropped when its coordinate is removed. Of a
/// range, each corner moves by `shift`; the range is dropped when both corners are
/// removed; when only one of them is, the range is cut to what is left, whichever order
/// its corners are in (`cut`). An insertion that would carry a corner past `MAX_COORD`
/// drops the address.
pub open spec fn adjust_address_spec(
    a: AddressView,
    sheet: Seq<char>,
    axis: Axis,
    at: int,
    delta: int,
    mode: EditMode,
) -> Option<AddressView> {
    if a.sheet != sheet {
        Some(a)
    } else {
        let s1 = shift(axis_of(a.start, axis), at, delta, mode);
        match a.end {
            None => match s1 {
                Some(x) => Some(AddressView { start: with_axis(a.start, axis, x), ..a }),
                None => None,
            },
            Some(e) => {
                let e1 = shift(axis_of(e, axis), at, delta, mode);
                match (s1, e1) {
                    (Some(x), Some(y)) => Some(
                        AddressView {
                            start: with_axis(a.start, axis, x),
                            end: Some(with_axis(e, axis, y)),
                            ..a
                        },
                    ),
                    (None, Some(y)) => if mode == EditMode::Remove {
                        Some(
                            AddressView {
                                start: with_axis(
                                    a.start,
                                    axis,
                                    cut(axis_of(a.start, axis), axis_of(e, axis), at),
                                ),
                                end: Some(with_axis(e, axis, y)),
                                ..a
                            },
                        )
                    } else {
                        None
                    },
                    (Some(x), None) => if mode == EditMode::Remove {
                        Some(
                            AddressView {
                                start: with_axis(a.start, axis, x),
                                end: Some(
                                    with_axis(e, axis, cut(axis_of(e, axis), axis_of(a.start, axis), at)),
                                ),
                                ..a
                            },
                        )
                    } else {
                        None
                    },
                    (None, None) => None,
                }
            },
        }
    }
}

fn shift_exec(c: u32, at: u32, delta: u32, mode: EditMode) -> (r: Option<u32>)
    ensures
        r matches Some(v) ==> shift(c as int, at as int, delta as int, mode) == Some(v as int),
        r is None ==> shift(c as int, at as int, delta as int, mode) is None,
{
    match mode {
        EditMode::Insert => {
            if c < at {
                Some(c)
            } else if c as u64 + delta as u64 <= MAX_COORD as u64 {
                Some(c + delta)
            } else {
                None
            }
        },
        EditMode::Remove => {
            if c < at {
                Some(c)
            } else if (c as u64) < at as u64 + delta as u64 {
                None
            } else {
                Some(c - delta)
            }
        },
    }
}

fn axis_get(c: Coordinate, axis: Axis) -> (r: u32)
    ensures
        r == axis_of(c, axis),
{
    match axis {
        Axis::Row => c.row,
        Axis::Column => c.col,
    }
}

fn axis_set(c: Coordinate, axis: Axis, v: u32) -> (r: Coordinate)
    ensures
        r == with_axis(c, axis, v as int),
{
    match axis {
        Axis::Row => Coordinate { row: v, ..c },
        Axis::Column => Coordinate { col: v, ..c },
    }
}

/// Whether two character sequences are equal.
pub(crate) fn same_chars(a: &Vec<char>, b: &Vec<char>) -> (r: bool)
    ensures
        r == (a@ == b@),
{
    if a.len() != b.len() {
        return false;
    }
    let mut i: usize = 0;
    while i < a.len()
        invariant
            i <= a.len() == b.len(),
            forall|j: int| 0 <= j < i ==> a@[j] == b@[j],
        decreases a.len() - i,
    {
        if a[i] != b[i] {
            return false;
        }
        i = i + 1;
    }
    assert(a@ =~= b@);
    true
}

} // verus!
