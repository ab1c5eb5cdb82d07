//! Course codes: a subject stem and a suffix.

use vstd::prelude::*;
use vstd::string::*;

verus! {

/// The part of a course code that follows the stem.
#[derive(Debug, PartialEq, Eq, Hash)]
pub enum CourseCodeSuffix {
    /// An ordinary numbered course, as in `CS-101`.
    Number(u32),
    /// A named code, as in `MATH-PLACEMENT`.
    Special(String),
    /// A synthetic code that stands for one unnamed course.
    Unique(u32),
}

/// Identifies a course: two codes are the same course exactly when stem and
/// suffix agree.
#[derive(Debug, PartialEq, Eq, Hash)]
pub struct CourseCode {
    pub stem: String,
    pub code: CourseCodeSuffix,
}

/// The mathematical value of a suffix.
pub enum SuffixView {
    Number(u32),
    Special(Seq<char>),
    Unique(u32),
}

/// The mathematical value of a course code.
pub struct CodeView {
    pub stem: Seq<char>,
    pub suffix: SuffixView,
}

impl View for CourseCodeSuffix {
    type V = SuffixView;

    open spec fn view(&self) -> SuffixView {
        match *self {
            CourseCodeSuffix::Number(n) => SuffixView::Number(n),
            CourseCodeSuffix::Special(s) => SuffixView::Special(s@),
            CourseCodeSuffix::Unique(n) => SuffixView::Unique(n),
        }
    }
}

impl View for CourseCode {
    type V = CodeView;

    open spec fn view(&self) -> CodeView {
        CodeView { stem: self.stem@, suffix: self.code@ }
    }
}

impl Clone for CourseCodeSuffix {
    fn clone(&self) -> (r: Self)
        ensures
            r@ == self@,
    {
        match self {
            CourseCodeSuffix::Number(n) => CourseCodeSuffix::Number(*n),
            CourseCodeSuffix::Special(s) => CourseCodeSuffix::Special(s.clone()),
            CourseCodeSuffix::Unique(n) => CourseCodeSuffix::Unique(*n),
        }
    }
}

impl Clone for CourseCode {
    fn clone(&self) -> (r: Self)
        ensures
            r@ == self@,
    {
        CourseCode { stem: self.stem.clone(), code: self.code.clone() }
    }
}

impl CourseCodeSuffix {
    /// Whether two suffixes are the same.
    pub fn same(&self, other: &CourseCodeSuffix) -> (r: bool)
        ensures
            r == (self@ == other@),
    {
        match (self, other) {
            (CourseCodeSuffix::Number(a), CourseCodeSuffix::Number(b)) => *a == *b,
            (CourseCodeSuffix::Special(a), CourseCodeSuffix::Special(b)) => *a == *b,
            (CourseCodeSuffix::Unique(a), CourseCodeSuffix::Unique(b)) => *a == *b,
            _ => false,
        }
    }
}

impl CourseCode {
    /// Whether two codes name the same course.
    pub fn same(&self, other: &CourseCode) -> (r: bool)
        ensures
            r == (self@ == other@),
    {
        self.stem == other.stem && self.code.same(&other.code)
    }
}

/// The values of a list of codes, in order.
pub open spec fn code_views(v: Seq<CourseCode>) -> Seq<CodeView> {
    v.map_values(|c: CourseCode| c@)
}

/// Whether `c` occurs in `list`.
pub fn contains_code(list: &Vec<CourseCode>, c: &CourseCode) -> (r: bool)
    ensures
        r == code_views(list@).contains(c@),
{
    let mut i: usize = 0;
    while i < list.len()
        invariant
            i <= list.len(),
            forall|j: int| 0 <= j < i ==> code_views(list@)[j] != c@,
        decreases list.len() - i,
    {
        if list[i].same(c) {
            assert(code_views(list@)[i as int] == c@);
            return true;
        }
        i += 1;
    }
    false
}

/// The character of one decimal digit.
pub open spec fn digit_char(d: nat) -> char {
    if d == 0 {
        '0'
    } else if d == 1 {
        '1'
    } else if d == 2 {
        '2'
    } else if d == 3 {
        '3'
    } else if d == 4 {
        '4'
    } else if d == 5 {
        '5'
    } else if d == 6 {
        '6'
    } else if d == 7 {
        '7'
    } else if d == 8 {
        '8'
    } else {
        '9'
    }
}

/// The decimal digits of `n`, without leading zeros.
pub open spec fn digits(n: nat) -> Seq<char>
    decreases n,
{
    if n < 10 {
        seq![digit_char(n)]
    } else {
        digits(n / 10).push(digit_char(n % 10))
    }
}

/// A suffix as text: a number in decimal, a named code as it is, a
/// synthetic code in decimal behind `#`.
pub open spec fn suffix_text(s: SuffixView) -> Seq<char> {
    match s {
        SuffixView::Number(n) => digits(n as nat),
        SuffixView::Special(t) => t,
        SuffixView::Unique(n) => seq!['#'] + digits(n as nat),
    }
}

/// A course code as text: stem, a dash, suffix.
pub open spec fn code_text(c: CodeView) -> Seq<char> {
    c.stem + seq!['-'] + suffix_text(c.suffix)
}

/// One decimal digit as a string.
fn digit_str(d: u128) -> (r: &'static str)
    requires
        d < 10,
    ensures
        r@ == seq![digit_char(d as nat)],
{
    proof {
        reveal_strlit("0");
        reveal_strlit("1");
        reveal_strlit("2");
        reveal_strlit("3");
        reveal_strlit("4");
        reveal_strlit("5");
        reveal_strlit("6");
        reveal_strlit("7");
        reveal_strlit("8");
        reveal_strlit("9");
    }
    let r = if d == 0 {
        "0"
    } else if d == 1 {
        "1"
    } else if d == 2 {
        "2"
    } else if d == 3 {
        "3"
    } else if d == 4 {
        "4"
    } else if d == 5 {
        "5"
    } else if d == 6 {
        "6"
    } else if d == 7 {
        "7"
    } else if d == 8 {
        "8"
    } else {
        "9"
    };
    assert(r@ =~= seq![digit_char(d as nat)]);
    r
}

/// Appends the decimal digits of `n` to `out`.
pub fn push_digits(out: &mut String, n: u128)
    ensures
        final(out)@ == old(out)@ + digits(n as nat),
    decreases n,
{
    let ghost start = out@;
    if n >= 10 {
        push_digits(out, n / 10);
    }
    out.append(digit_str(n % 10));
    assert(out@ =~= start + digits(n as nat));
}

impl CourseCode {
    /// The code as text, as in `CS-101`.
    pub fn to_text(&self) -> (r: String)
        ensures
            r@ == code_text(self@),
    {
        proof {
            reveal_strlit("-");
            reveal_strlit("#");
        }
        let mut out = self.stem.clone();
        out.append("-");
        match &self.code {
            CourseCodeSuffix::Number(n) => {
                push_digits(&mut out, *n as u128);
            },
            CourseCodeSuffix::Special(t) => {
                out.append(t.as_str());
            },
            CourseCodeSuffix::Unique(n) => {
                out.append("#");
                push_digits(&mut out, *n as u128);
            },
        }
        assert(out@ =~= code_text(self@));
        out
    }
}

/// Whether `c` is one of the characters `0` to `9`.
pub open spec fn is_digit(c: char) -> bool {
    48 <= c as u32 <= 57
}

/// The value of a digit; zero for any other character.
pub open spec fn digit_value(c: char) -> nat {
    if is_digit(c) {
        (c as u32 - 48) as nat
    } else {
        0
    }
}

/// Whether `s` holds digits only.
pub open spec fn all_digits(s: Seq<char>) -> bool {
    forall|i: int| 0 <= i < s.len() ==> is_digit(#[trigger] s[i])
}

/// The number that the digits of `s` write in decimal.
pub open spec fn decimal_value(s: Seq<char>) -> nat
    decreases s.len(),
{
    if s.len() == 0 {
        0
    } else {
        decimal_value(s.drop_last()) * 10 + digit_value(s.last())
    }
}

/// The number that `s` writes, if it writes one: an optional `+`, then at
/// least one digit, and a value that fits in 32 bits.
pub open spec fn parse_number(s: Seq<char>) -> Option<u32> {
    let body = if s.len() > 0 && s[0] == '+' {
        s.skip(1)
    } else {
        s
    };
    if body.len() > 0 && all_digits(body) && decimal_value(body) <= u32::MAX {
        Some(decimal_value(body) as u32)
    } else {
        None
    }
}

/// The position of the first dash at or after `i`; the length of `s` if
/// there is none.
pub open spec fn dash_at(s: Seq<char>, i: int) -> int
    decreases s.len() - i,
{
    if i < 0 || i >= s.len() {
        s.len() as int
    } else if s[i] == '-' {
        i
    } else {
        dash_at(s, i + 1)
    }
}

/// The code that a text names: the stem is what stands before the first
/// dash, the suffix what stands between the first dash and the second, or
/// the end. A suffix that writes a number is that number, any other a named
/// code.
pub open spec fn parse_code(s: Seq<char>) -> CodeView {
    let d = dash_at(s, 0);
    let rest = s.skip(d + 1);
    let part = rest.take(dash_at(rest, 0));
    CodeView {
        stem: s.take(d),
        suffix: match parse_number(part) {
            Some(n) => SuffixView::Number(n),
            None => SuffixView::Special(part),
        },
    }
}

/// The digits of a prefix write no more than the digits of the whole.
pub proof fn lemma_decimal_prefix(s: Seq<char>, k: int)
    requires
        0 <= k <= s.len(),
    ensures
        decimal_value(s.take(k)) <= decimal_value(s),
    decreases s.len(),
{
    if k < s.len() {
        assert(s.drop_last().take(k) =~= s.take(k));
        lemma_decimal_prefix(s.drop_last(), k);
    } else {
        assert(s.take(k) =~= s);
    }
}

/// Finds the first dash at or after `from`.
pub fn find_dash(x: &str, from: usize) -> (r: usize)
    requires
        from <= x@.len(),
    ensures
        r == dash_at(x@, from as int),
        from <= r <= x@.len(),
{
    let n = x.unicode_len();
    let mut i: usize = from;
    while i < n
        invariant
            from <= i <= n,
            n == x@.len(),
            dash_at(x@, from as int) == dash_at(x@, i as int),
        decreases n - i,
    {
        if x.get_char(i) == '-' {
            return i;
        }
        i += 1;
    }
    i
}

/// Reads a number as `parse_number` describes it.
pub fn read_number(part: &str) -> (r: Option<u32>)
    ensures
        r == parse_number(part@),
{
    let n = part.unicode_len();
    let start: usize = if n > 0 && part.get_char(0) == '+' {
        1
    } else {
        0
    };
    let ghost body = if start == 1 {
        part@.skip(1)
    } else {
        part@
    };
    if start == n {
        return None;
    }
    let mut acc: u64 = 0;
    let mut i: usize = start;
    assert(body.take(0) =~= Seq::empty());
    while i < n
        invariant
            start <= i <= n,
            n == part@.len(),
            start <= 1,
            (start == 1) == (part@.len() > 0 && part@[0] == '+'),
            body.len() == n - start,
            forall|k: int| 0 <= k < body.len() ==> body[k] == part@[k + start],
            body == if start == 1 { part@.skip(1) } else { part@ },
            all_digits(body.take(i - start)),
            acc == decimal_value(body.take(i - start)),
            acc <= u32::MAX,
        decreases n - i,
    {
        let c = part.get_char(i);
        let v = c as u32;
        if v < 48 || v > 57 {
            assert(!is_digit(body[i - start]));
            return None;
        }
        assert(body.take(i - start + 1).drop_last() =~= body.take(i - start));
        assert(body.take(i - start + 1).last() == c);
        acc = acc * 10 + (v - 48) as u64;
        if acc > u32::MAX as u64 {
            proof {
                lemma_decimal_prefix(body, i - start + 1);
            }
            return None;
        }
        i += 1;
    }
    assert(body.take(i - start) =~= body);
    Some(acc as u32)
}

/// Reads a course code from a text such as `CS-101`.
pub fn str_to_cc(x: &str) -> (r: CourseCode)
    requires
        dash_at(x@, 0) < x@.len(),
    ensures
        r@ == parse_code(x@),
{
    let n = x.unicode_len();
    let d = find_dash(x, 0);
    let e = find_dash(x, d + 1);
    let stem = x.substring_char(0, d);
    let part = x.substring_char(d + 1, e);
    proof {
        let rest = x@.skip(d + 1);
        lemma_dash_shift(x@, d + 1, d + 1);
        assert(stem@ =~= x@.take(d as int));
        assert(part@ =~= rest.take(dash_at(rest, 0)));
    }
    let code = match read_number(part) {
        Some(v) => CourseCodeSuffix::Number(v),
        None => CourseCodeSuffix::Special(String::from_str(part)),
    };
    CourseCode { stem: String::from_str(stem), code }
}

/// Looking for a dash in what follows position `k` finds the same dash as
/// looking in the whole text from there on.
pub proof fn lemma_dash_shift(s: Seq<char>, k: int, i: int)
    requires
        0 <= k <= i <= s.len(),
    ensures
        dash_at(s, i) == dash_at(s.skip(k), i - k) + k,
    decreases s.len() - i,
{
    let t = s.skip(k);
    if i < s.len() {
        assert(t[i - k] == s[i]);
        if s[i] != '-' {
            lemma_dash_shift(s, k, i + 1);
        }
    }
}

/// Reads a course code from a text, if the text holds a dash.
pub fn read_code(x: &str) -> (r: Option<CourseCode>)
    ensures
        match r {
            Some(c) => dash_at(x@, 0) < x@.len() && c@ == parse_code(x@),
            None => dash_at(x@, 0) >= x@.len(),
        },
{
    if find_dash(x, 0) < x.unicode_len() {
        Some(str_to_cc(x))
    } else {
        None
    }
}

/// The digits of a number are digits, and they write that number.
pub proof fn lemma_digits(n: nat)
    ensures
        digits(n).len() >= 1,
        all_digits(digits(n)),
        decimal_value(digits(n)) == n,
    decreases n,
{
    let d = n % 10;
    assert(is_digit(digit_char(d)) && digit_value(digit_char(d)) == d);
    if n < 10 {
        assert(digits(n).drop_last() =~= Seq::<char>::empty());
        assert(decimal_value(Seq::<char>::empty()) == 0);
        assert(digits(n).last() == digit_char(n));
    } else {
        lemma_digits(n / 10);
        let head = digits(n / 10);
        assert(digits(n).drop_last() =~= head);
        assert(digits(n).last() == digit_char(d));
        assert forall|i: int| 0 <= i < digits(n).len() implies is_digit(#[trigger] digits(n)[i]) by {
            if i < head.len() {
                assert(digits(n)[i] == head[i]);
            }
        }
    }
}

/// Where the first dash at or after `i` stands at `k`, `dash_at` finds it;
/// where there is none, it gives the length.
pub proof fn lemma_dash_found(s: Seq<char>, i: int, k: int)
    requires
        0 <= i <= k <= s.len(),
        forall|j: int| i <= j < k ==> #[trigger] s[j] != '-',
        k < s.len() ==> s[k] == '-',
    ensures
        dash_at(s, i) == k,
    decreases k - i,
{
    if i < k {
        lemma_dash_found(s, i + 1, k);
    }
}

/// Whether the text of `c` names `c` again: the stem holds no dash, and the
/// suffix is a number, or a name without a dash that does not write a
/// number.
pub open spec fn reads_back(c: CodeView) -> bool {
    !c.stem.contains('-') && match c.suffix {
        SuffixView::Number(_) => true,
        SuffixView::Special(t) => !t.contains('-') && parse_number(t) is None,
        SuffixView::Unique(_) => false,
    }
}

/// Writing a code as text and reading the text gives the code again.
pub proof fn lemma_text_reads_back(c: CodeView)
    requires
        reads_back(c),
    ensures
        parse_code(code_text(c)) == c,
{
    let tail = suffix_text(c.suffix);
    let text = code_text(c);
    let d = c.stem.len() as int;
    assert forall|j: int| 0 <= j < d implies #[trigger] text[j] != '-' by {
        assert(text[j] == c.stem[j]);
        assert(c.stem.contains(c.stem[j]));
    }
    assert(text[d] == '-');
    lemma_dash_found(text, 0, d);
    let rest = text.skip(d + 1);
    assert(rest =~= tail);
    assert(text.take(d) =~= c.stem);
    match c.suffix {
        SuffixView::Number(n) => {
            lemma_digits(n as nat);
            assert forall|j: int| 0 <= j < tail.len() implies #[trigger] tail[j] != '-' by {
                assert(is_digit(tail[j]));
            }
            assert(tail[0] != '+') by {
                assert(is_digit(tail[0]));
            }
        },
        SuffixView::Special(t) => {
            assert forall|j: int| 0 <= j < tail.len() implies #[trigger] tail[j] != '-' by {
                assert(t.contains(t[j]));
            }
        },
        SuffixView::Unique(_) => {},
    }
    lemma_dash_found(rest, 0, rest.len() as int);
    assert(rest.take(rest.len() as int) =~= rest);
}

} // verus!
