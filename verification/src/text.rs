//! Small text routines: trimming, splitting, decimal numbers, coordinates
//! ("x,y"), command-line arguments and the JSON block of a model's answer.

use vstd::prelude::*;
use vstd::string::*;

verus! {

/// Unicode white space (what `char::is_whitespace` recognises).
pub open spec fn is_ws(c: char) -> bool {
    c == ' ' || c == '\t' || c == '\n' || c == '\u{0B}' || c == '\u{0C}' || c == '\r' || c == '\u{85}'
        || c == '\u{A0}' || c == '\u{1680}' || ('\u{2000}' <= c && c <= '\u{200A}') || c == '\u{2028}'
        || c == '\u{2029}' || c == '\u{202F}' || c == '\u{205F}' || c == '\u{3000}'
}

/// Is `c` white space?
pub fn whitespace(c: char) -> (r: bool)
    ensures
        r == is_ws(c),
{
    c == ' ' || c == '\t' || c == '\n' || c == '\u{0B}' || c == '\u{0C}' || c == '\r' || c == '\u{85}'
        || c == '\u{A0}' || c == '\u{1680}' || ('\u{2000}' <= c && c <= '\u{200A}') || c == '\u{2028}'
        || c == '\u{2029}' || c == '\u{202F}' || c == '\u{205F}' || c == '\u{3000}'
}

/// `s` without its leading white space.
pub open spec fn trim_start_spec(s: Seq<char>) -> Seq<char>
    decreases s.len(),
{
    if s.len() > 0 && is_ws(s[0]) { trim_start_spec(s.drop_first()) } else { s }
}

/// `s` without its trailing white space.
pub open spec fn trim_end_spec(s: Seq<char>) -> Seq<char>
    decreases s.len(),
{
    if s.len() > 0 && is_ws(s.last()) { trim_end_spec(s.drop_last()) } else { s }
}

/// `s` without its leading and trailing white space.
pub open spec fn trim_spec(s: Seq<char>) -> Seq<char> {
    trim_end_spec(trim_start_spec(s))
}

proof fn lemma_trim_start_from(s: Seq<char>, k: int)
    requires
        0 <= k <= s.len(),
        forall|j: int| 0 <= j < k ==> is_ws(#[trigger] s[j]),
    ensures
        trim_start_spec(s) == trim_start_spec(s.subrange(k, s.len() as int)),
    decreases k,
{
    if k > 0 {
        assert(s.drop_first().subrange(k - 1, s.drop_first().len() as int) =~= s.subrange(k, s.len() as int));
        assert forall|j: int| 0 <= j < k - 1 implies is_ws(#[trigger] s.drop_first()[j]) by {
            assert(s.drop_first()[j] == s[j + 1]);
        }
        lemma_trim_start_from(s.drop_first(), k - 1);
    } else {
        assert(s.subrange(0, s.len() as int) =~= s);
    }
}

proof fn lemma_trim_end_to(s: Seq<char>, k: int)
    requires
        0 <= k <= s.len(),
        forall|j: int| k <= j < s.len() ==> is_ws(#[trigger] s[j]),
    ensures
        trim_end_spec(s) == trim_end_spec(s.subrange(0, k)),
    decreases s.len() - k,
{
    if k < s.len() {
        assert(s.drop_last().subrange(0, k) =~= s.subrange(0, k));
        assert forall|j: int| k <= j < s.drop_last().len() implies is_ws(#[trigger] s.drop_last()[j]) by {
            assert(s.drop_last()[j] == s[j]);
        }
        lemma_trim_end_to(s.drop_last(), k);
    } else {
        assert(s.subrange(0, k) =~= s);
    }
}

/// `s` without its leading and trailing white space.
pub fn trim(s: &str) -> (r: &str)
    ensures
        r@ == trim_spec(s@),
{
    let n = s.unicode_len();
    let mut a: usize = 0;
    while a < n && whitespace(s.get_char(a))
        invariant
            n == s@.len(),
            0 <= a <= n,
            forall|j: int| 0 <= j < a ==> is_ws(#[trigger] s@[j]),
        decreases n - a,
    {
        a = a + 1;
    }
    proof {
        lemma_trim_start_from(s@, a as int);
    }
    let ghost t = s@.subrange(a as int, n as int);
    let mut b: usize = n;
    while b > a && whitespace(s.get_char(b - 1))
        invariant
            n == s@.len(),
            0 <= a <= b <= n,
            t == s@.subrange(a as int, n as int),
            forall|j: int| b <= j < n ==> is_ws(#[trigger] s@[j]),
        decreases b - a,
    {
        b = b - 1;
    }
    proof {
        assert(a == n || !is_ws(s@[a as int]));
        assert(trim_start_spec(t) == t);
        assert forall|j: int| b - a <= j < t.len() implies is_ws(#[trigger] t[j]) by {
            assert(t[j] == s@[a + j]);
        }
        lemma_trim_end_to(t, b - a);
        assert(t.subrange(0, b - a) =~= s@.subrange(a as int, b as int));
        let u = s@.subrange(a as int, b as int);
        if u.len() > 0 {
            assert(u.last() == s@[b - 1]);
        }
    }
    s.substring_char(a, b)
}

/// Position of the first `c` in `s`.
pub open spec fn first_of(s: Seq<char>, c: char, i: int) -> bool {
    0 <= i < s.len() && s[i] == c && forall|j: int| 0 <= j < i ==> s[j] != c
}

/// Position of the last `c` in `s`.
pub open spec fn last_of(s: Seq<char>, c: char, i: int) -> bool {
    0 <= i < s.len() && s[i] == c && forall|j: int| i < j < s.len() ==> s[j] != c
}

/// The first `c` of `s`, if any.
pub fn find_char(s: &str, c: char) -> (r: Option<usize>)
    ensures
        r matches Some(i) ==> first_of(s@, c, i as int),
        r is None ==> forall|j: int| 0 <= j < s@.len() ==> s@[j] != c,
{
    let n = s.unicode_len();
    let mut i: usize = 0;
    while i < n
        invariant
            n == s@.len(),
            0 <= i <= n,
            forall|j: int| 0 <= j < i ==> s@[j] != c,
        decreases n - i,
    {
        if s.get_char(i) == c {
            return Some(i);
        }
        i = i + 1;
    }
    None
}

/// The last `c` of `s`, if any.
pub fn rfind_char(s: &str, c: char) -> (r: Option<usize>)
    ensures
        r matches Some(i) ==> last_of(s@, c, i as int),
        r is None ==> forall|j: int| 0 <= j < s@.len() ==> s@[j] != c,
{
    let n = s.unicode_len();
    let mut i: usize = n;
    while i > 0
        invariant
            n == s@.len(),
            0 <= i <= n,
            forall|j: int| i <= j < n ==> s@[j] != c,
        decreases i,
    {
        if s.get_char(i - 1) == c {
            return Some(i - 1);
        }
        i = i - 1;
    }
    None
}

/// Value of a string of decimal digits.
pub open spec fn digits_value(s: Seq<char>) -> int
    decreases s.len(),
{
    if s.len() == 0 {
        0
    } else {
        digits_value(s.drop_last()) * 10 + (s.last() as int - '0' as int)
    }
}

/// All the characters of `s` are decimal digits.
pub open spec fn all_digits(s: Seq<char>) -> bool {
    forall|i: int| 0 <= i < s.len() ==> '0' <= #[trigger] s[i] && s[i] <= '9'
}

/// The unsigned number written in `s` (an optional `+`, then one digit or
/// more), when it is at most `max`: the reading of Rust's `str::parse` for
/// unsigned integers.
pub open spec fn parse_uint_spec(s: Seq<char>, max: int) -> Option<int> {
    let d = if s.len() > 0 && s[0] == '+' { s.drop_first() } else { s };
    if d.len() > 0 && all_digits(d) && digits_value(d) <= max {
        Some(digits_value(d))
    } else {
        None
    }
}

proof fn lemma_digits_nonneg(s: Seq<char>)
    requires
        all_digits(s),
    ensures
        digits_value(s) >= 0,
    decreases s.len(),
{
    if s.len() > 0 {
        assert(all_digits(s.drop_last()));
        lemma_digits_nonneg(s.drop_last());
    }
}

proof fn lemma_digits_grow(s: Seq<char>, k: int)
    requires
        all_digits(s),
        0 <= k <= s.len(),
    ensures
        digits_value(s.subrange(0, k)) <= digits_value(s),
    decreases s.len() - k,
{
    if k < s.len() {
        lemma_digits_grow(s.drop_last(), k);
        assert(s.drop_last().subrange(0, k) =~= s.subrange(0, k));
        assert(all_digits(s.drop_last()));
        lemma_digits_nonneg(s.drop_last());
    } else {
        assert(s.subrange(0, k) =~= s);
    }
}

/// The unsigned number written in `s`, if it is at most `max`.
pub fn parse_uint(s: &str, max: u64) -> (r: Option<u64>)
    ensures
        r matches Some(v) ==> parse_uint_spec(s@, max as int) == Some(v as int),
        r is None ==> parse_uint_spec(s@, max as int) is None,
{
    let n = s.unicode_len();
    let mut start: usize = 0;
    if n > 0 && s.get_char(0) == '+' {
        start = 1;
    }
    let ghost d = if s@.len() > 0 && s@[0] == '+' { s@.drop_first() } else { s@ };
    proof {
        if start == 1 {
            assert(d =~= s@.subrange(1, n as int));
        } else {
            assert(d =~= s@.subrange(0, n as int));
        }
    }
    if start == n {
        return None;
    }
    let mut v: u64 = 0;
    let mut i: usize = start;
    while i < n
        invariant
            n == s@.len(),
            start <= i <= n,
            d == s@.subrange(start as int, n as int),
            d == (if s@.len() > 0 && s@[0] == '+' { s@.drop_first() } else { s@ }),
            all_digits(s@.subrange(start as int, i as int)),
            v == digits_value(s@.subrange(start as int, i as int)),
            v <= max,
        decreases n - i,
    {
        let c = s.get_char(i);
        if c < '0' || c > '9' {
            proof {
                assert(d[i - start] == c);
                if all_digits(d) {
                    assert('0' <= d[i - start] && d[i - start] <= '9');
                }

            }
            return None;
        }
        let dig = (c as u32 - '0' as u32) as u64;
        proof {
            let p = s@.subrange(start as int, i + 1);
            assert(p.drop_last() =~= s@.subrange(start as int, i as int));
            assert(p.last() == c);
            assert(all_digits(p));
        }
        if dig > max || v > (max - dig) / 10 {
            proof {
                let p = s@.subrange(start as int, i + 1);
                assert(digits_value(p) == v * 10 + dig);
                assert(v * 10 + dig > max) by (nonlinear_arith)
                    requires dig > max || v > (max - dig) / 10, dig <= 9, v >= 0;
                if all_digits(d) {
                    lemma_digits_grow(d, i + 1 - start);
                    assert(d.subrange(0, i + 1 - start) =~= p);
                }
            }
            return None;
        }
        proof {
            assert(v * 10 + dig <= max) by (nonlinear_arith)
                requires v <= (max - dig) / 10, dig <= max;
        }
        v = v * 10 + dig;
        i = i + 1;
    }
    proof {
        assert(s@.subrange(start as int, n as int) == d);
    }
    Some(v)
}

/// The coordinates written "x,y" (each side trimmed), when both are numbers.
pub open spec fn parse_xy_spec(s: Seq<char>) -> Option<(u32, u32)> {
    if exists|i: int| first_of(s, ',', i) {
        let i = choose|i: int| first_of(s, ',', i);
        let a = parse_uint_spec(trim_spec(s.subrange(0, i)), u32::MAX as int);
        let b = parse_uint_spec(trim_spec(s.subrange(i + 1, s.len() as int)), u32::MAX as int);
        if a is Some && b is Some { Some((a->0 as u32, b->0 as u32)) } else { None }
    } else {
        None
    }
}

/// Parses a coordinate "x,y".
pub fn parse_xy(s: String) -> (r: Option<(u32, u32)>)
    ensures
        r == parse_xy_spec(s@),
{
    let t = s.as_str();
    let i = match find_char(t, ',') {
        Some(i) => i,
        None => {
            return None;
        },
    };
    proof {
        let c = choose|c: int| first_of(s@, ',', c);
        if c < i {
            assert(s@[c] != ',');
        } else if c > i {
            assert(s@[i as int] != ',');
        }
    }
    let n = t.unicode_len();
    let a = parse_uint(trim(t.substring_char(0, i)), 0xffff_ffff);
    let b = parse_uint(trim(t.substring_char(i + 1, n)), 0xffff_ffff);
    match (a, b) {
        (Some(x), Some(y)) => Some((x as u32, y as u32)),
        _ => None,
    }
}

/// The JSON block of a text: from its first `{` to its last `}` when they
/// come in that order, else the whole text.
pub open spec fn json_block(s: Seq<char>) -> Seq<char> {
    if (exists|a: int| first_of(s, '{', a)) && (exists|b: int| last_of(s, '}', b)) {
        let a = choose|a: int| first_of(s, '{', a);
        let b = choose|b: int| last_of(s, '}', b);
        if b >= a { s.subrange(a, b + 1) } else { s }
    } else {
        s
    }
}

/// Isolates the JSON block of a text (a model may wrap it in prose).
pub fn extract_json(s: &str) -> (r: &str)
    ensures
        r@ == json_block(s@),
{
    let n = s.unicode_len();
    let a = find_char(s, '{');
    let b = rfind_char(s, '}');
    proof {
        if let Some(i) = a {
            let c = choose|c: int| first_of(s@, '{', c);
            if c < i {
                assert(s@[c] != '{');
            } else if c > i {
                assert(s@[i as int] != '{');
            }
        }
        if let Some(i) = b {
            let c = choose|c: int| last_of(s@, '}', c);
            if c < i {
                assert(s@[i as int] != '}');
            } else if c > i {
                assert(s@[c] != '}');
            }
        }
    }
    match (a, b) {
        (Some(a), Some(b)) => {
            if b >= a {
                s.substring_char(a, b + 1)
            } else {
                s
            }
        },
        _ => s,
    }
}

/// Are `a` and `b` the same text?
pub fn same_text(a: &str, b: &str) -> (r: bool)
    ensures
        r == (a@ == b@),
{
    let n = a.unicode_len();
    if n != b.unicode_len() {
        return false;
    }
    let mut i: usize = 0;
    while i < n
        invariant
            n == a@.len(),
            n == b@.len(),
            0 <= i <= n,
            forall|j: int| 0 <= j < i ==> a@[j] == b@[j],
        decreases n - i,
    {
        if a.get_char(i) != b.get_char(i) {
            return false;
        }
        i = i + 1;
    }
    assert(a@ =~= b@);
    true
}

/// Command-line settings of the headless driver.
#[derive(Debug, Clone)]
pub struct Args {
    pub seed: u64,
    pub turns: usize,
    pub width: u32,
    pub height: u32,
    pub log: String,
    pub snapshot: Option<String>,
    pub inspect: Option<(u32, u32)>,
    /// Arguments that were not understood (reported, then ignored).
    pub ignored: Vec<String>,
}

/// The settings before any argument is read.
pub open spec fn default_args(log: Seq<char>) -> (u64, usize, u32, u32, Seq<char>, Option<Seq<char>>, Option<(u32, u32)>, Seq<Seq<char>>) {
    (1, 12, 800, 500, log, None, None, Seq::empty())
}

/// The settings once the arguments from position `i` on are read, starting
/// from `st` (seed, turns, width, height, log, snapshot, inspect, ignored).
/// An option takes the next argument; a number that does not parse leaves the
/// setting as it was.
pub open spec fn read_args(
    args: Seq<Seq<char>>,
    i: int,
    st: (u64, usize, u32, u32, Seq<char>, Option<Seq<char>>, Option<(u32, u32)>, Seq<Seq<char>>),
) -> (u64, usize, u32, u32, Seq<char>, Option<Seq<char>>, Option<(u32, u32)>, Seq<Seq<char>>)
    decreases args.len() - i,
{
    if i < 0 || i >= args.len() {
        st
    } else {
        let a = args[i];
        let has_next = i + 1 < args.len();
        let next = args[i + 1];
        let j = if has_next { i + 2 } else { i + 1 };
        if a == "--seed"@ {
            let v = if has_next { parse_uint_spec(next, u64::MAX as int) } else { None };
            read_args(args, j, if v is Some { (v->0 as u64, st.1, st.2, st.3, st.4, st.5, st.6, st.7) } else { st })
        } else if a == "--turns"@ {
            let v = if has_next { parse_uint_spec(next, usize::MAX as int) } else { None };
            read_args(args, j, if v is Some { (st.0, v->0 as usize, st.2, st.3, st.4, st.5, st.6, st.7) } else { st })
        } else if a == "--width"@ {
            let v = if has_next { parse_uint_spec(next, u32::MAX as int) } else { None };
            read_args(args, j, if v is Some { (st.0, st.1, v->0 as u32, st.3, st.4, st.5, st.6, st.7) } else { st })
        } else if a == "--height"@ {
            let v = if has_next { parse_uint_spec(next, u32::MAX as int) } else { None };
            read_args(args, j, if v is Some { (st.0, st.1, st.2, v->0 as u32, st.4, st.5, st.6, st.7) } else { st })
        } else if a == "--log"@ {
            read_args(args, j, if has_next { (st.0, st.1, st.2, st.3, next, st.5, st.6, st.7) } else { st })
        } else if a == "--snapshot"@ {
            read_args(args, j, (st.0, st.1, st.2, st.3, st.4, if has_next { Some(next) } else { None }, st.6, st.7))
        } else if a == "--inspect"@ {
            read_args(args, j, (st.0, st.1, st.2, st.3, st.4, st.5, if has_next { parse_xy_spec(next) } else { None }, st.7))
        } else {
            read_args(args, i + 1, (st.0, st.1, st.2, st.3, st.4, st.5, st.6, st.7.push(a)))
        }
    }
}

impl Args {
    /// The settings as a tuple of plain values.
    pub open spec fn model(&self) -> (u64, usize, u32, u32, Seq<char>, Option<Seq<char>>, Option<(u32, u32)>, Seq<Seq<char>>) {
        (self.seed, self.turns, self.width, self.height, self.log@,
            match self.snapshot { Some(s) => Some(s@), None => None }, self.inspect,
            Seq::new(self.ignored@.len(), |k: int| self.ignored@[k]@))
    }

    /// Reads the arguments (the program's name excluded): `--seed N`,
    /// `--turns N`, `--width N`, `--height N`, `--log path`, `--snapshot path`,
    /// `--inspect x,y`; anything else is set aside.
    pub fn from_args(args: Vec<String>) -> (r: Args)
        ensures
            r.model() == read_args(Seq::new(args@.len(), |k: int| args@[k]@), 0, default_args("logs/run.jsonl"@)),
    {
        let ghost all = Seq::new(args@.len(), |k: int| args@[k]@);
        let mut r = Args {
            seed: 1,
            turns: 12,
            width: 800,
            height: 500,
            log: String::from_str("logs/run.jsonl"),
            snapshot: None,
            inspect: None,
            ignored: Vec::new(),
        };
        proof {
            assert(r.model() =~~= default_args("logs/run.jsonl"@));
        }
        let n = args.len();
        let mut i: usize = 0;
        while i < n
            invariant
                n == args@.len(),
                all == Seq::new(args@.len(), |k: int| args@[k]@),
                0 <= i <= n + 1,
                read_args(all, i as int, r.model()) == read_args(all, 0, default_args("logs/run.jsonl"@)),
            decreases n + 1 - i,
        {
            let a = args[i].as_str();
            let has_next = i + 1 < n;
            let j = if has_next { i + 2 } else { i + 1 };
            let ghost before = r.model();
            proof {
                reveal_strlit("--seed");
                reveal_strlit("--turns");
                reveal_strlit("--width");
                reveal_strlit("--height");
                reveal_strlit("--log");
                reveal_strlit("--snapshot");
                reveal_strlit("--inspect");
            }
            if same_text(a, "--seed") {
                if has_next {
                    if let Some(v) = parse_uint(args[i + 1].as_str(), u64::MAX) {
                        r.seed = v;
                    }
                }
            } else if same_text(a, "--turns") {
                if has_next {
                    if let Some(v) = parse_uint(args[i + 1].as_str(), usize::MAX as u64) {
                        r.turns = v as usize;
                    }
                }
            } else if same_text(a, "--width") {
                if has_next {
                    if let Some(v) = parse_uint(args[i + 1].as_str(), 0xffff_ffff) {
                        r.width = v as u32;
                    }
                }
            } else if same_text(a, "--height") {
                if has_next {
                    if let Some(v) = parse_uint(args[i + 1].as_str(), 0xffff_ffff) {
                        r.height = v as u32;
                    }
                }
            } else if same_text(a, "--log") {
                if has_next {
                    r.log = String::from_str(args[i + 1].as_str());
                }
            } else if same_text(a, "--snapshot") {
                r.snapshot = if has_next { Some(String::from_str(args[i + 1].as_str())) } else { None };
            } else if same_text(a, "--inspect") {
                r.inspect = if has_next { parse_xy(String::from_str(args[i + 1].as_str())) } else { None };
            } else {
                r.ignored.push(String::from_str(a));
                proof {
                    assert(r.model().7 =~~= before.7.push(a@));
                }
                i = i + 1;
                continue;
            }
            proof {
                assert(r.model().7 =~~= before.7);
            }
            i = j;
        }
        r
    }
}

/// Command-line settings of the game window.
#[derive(Debug, Clone)]
pub struct ViewArgs {
    pub seed: u64,
    pub nations: u16,
    pub player: u16,
    pub pre_turns: usize,
    pub px: u32,
    pub headless: bool,
    pub shot: Option<String>,
    /// Arguments that were not understood (reported, then ignored).
    pub ignored: Vec<String>,
}

/// The window settings as plain values: seed, nations, player, months played
/// before the window opens, tile size, headless, screenshot path, ignored.
pub type ViewModel = (u64, u16, u16, usize, u32, bool, Option<Seq<char>>, Seq<Seq<char>>);

/// The window settings before any argument is read.
pub open spec fn default_view() -> ViewModel {
    (2026, 8, 0, 120, 16, false, None, Seq::empty())
}

/// The window settings once the arguments from position `i` on are read,
/// starting from `st`. An option takes the next argument (`--headless`
/// takes none); a number that does not parse leaves the setting as it was.
pub open spec fn read_view_args(args: Seq<Seq<char>>, i: int, st: ViewModel) -> ViewModel
    decreases args.len() - i,
{
    if i < 0 || i >= args.len() {
        st
    } else {
        let a = args[i];
        let has_next = i + 1 < args.len();
        let next = args[i + 1];
        let j = if has_next { i + 2 } else { i + 1 };
        if a == "--seed"@ {
            let v = if has_next { parse_uint_spec(next, u64::MAX as int) } else { None };
            read_view_args(args, j, if v is Some { (v->0 as u64, st.1, st.2, st.3, st.4, st.5, st.6, st.7) } else { st })
        } else if a == "--nations"@ {
            let v = if has_next { parse_uint_spec(next, u16::MAX as int) } else { None };
            read_view_args(args, j, if v is Some { (st.0, v->0 as u16, st.2, st.3, st.4, st.5, st.6, st.7) } else { st })
        } else if a == "--player"@ {
            let v = if has_next { parse_uint_spec(next, u16::MAX as int) } else { None };
            read_view_args(args, j, if v is Some { (st.0, st.1, v->0 as u16, st.3, st.4, st.5, st.6, st.7) } else { st })
        } else if a == "--pre-turns"@ {
            let v = if has_next { parse_uint_spec(next, usize::MAX as int) } else { None };
            read_view_args(args, j, if v is Some { (st.0, st.1, st.2, v->0 as usize, st.4, st.5, st.6, st.7) } else { st })
        } else if a == "--px"@ {
            let v = if has_next { parse_uint_spec(next, u32::MAX as int) } else { None };
            read_view_args(args, j, if v is Some { (st.0, st.1, st.2, st.3, v->0 as u32, st.5, st.6, st.7) } else { st })
        } else if a == "--headless"@ {
            read_view_args(args, i + 1, (st.0, st.1, st.2, st.3, st.4, true, st.6, st.7))
        } else if a == "--shot"@ {
            read_view_args(args, j, (st.0, st.1, st.2, st.3, st.4, st.5, if has_next { Some(next) } else { None }, st.7))
        } else {
            read_view_args(args, i + 1, (st.0, st.1, st.2, st.3, st.4, st.5, st.6, st.7.push(a)))
        }
    }
}

impl ViewArgs {
    /// The settings as plain values.
    pub open spec fn model(&self) -> ViewModel {
        (self.seed, self.nations, self.player, self.pre_turns, self.px, self.headless,
            match self.shot { Some(s) => Some(s@), None => None },
            Seq::new(self.ignored@.len(), |k: int| self.ignored@[k]@))
    }

    /// Reads the arguments (the program's name excluded): `--seed N`,
    /// `--nations N`, `--player N`, `--pre-turns N`, `--px N`, `--headless`,
    /// `--shot path`; anything else is set aside.
    pub fn from_args(args: Vec<String>) -> (r: ViewArgs)
        ensures
            r.model() == read_view_args(Seq::new(args@.len(), |k: int| args@[k]@), 0, default_view()),
    {
        let ghost all = Seq::new(args@.len(), |k: int| args@[k]@);
        let mut r = ViewArgs {
            seed: 2026,
            nations: 8,
            player: 0,
            pre_turns: 120,
            px: 16,
            headless: false,
            shot: None,
            ignored: Vec::new(),
        };
        proof {
            assert(r.model() =~~= default_view());
        }
        let n = args.len();
        let mut i: usize = 0;
        while i < n
            invariant
                n == args@.len(),
                all == Seq::new(args@.len(), |k: int| args@[k]@),
                0 <= i <= n + 1,
                read_view_args(all, i as int, r.model()) == read_view_args(all, 0, default_view()),
            decreases n + 1 - i,
        {
            let a = args[i].as_str();
            let has_next = i + 1 < n;
            let j = if has_next { i + 2 } else { i + 1 };
            let ghost before = r.model();
            proof {
                reveal_strlit("--seed");
                reveal_strlit("--nations");
                reveal_strlit("--player");
                reveal_strlit("--pre-turns");
                reveal_strlit("--px");
                reveal_strlit("--headless");
                reveal_strlit("--shot");
            }
            if same_text(a, "--seed") {
                if has_next {
                    if let Some(v) = parse_uint(args[i + 1].as_str(), u64::MAX) {
                        r.seed = v;
                    }
                }
            } else if same_text(a, "--nations") {
                if has_next {
                    if let Some(v) = parse_uint(args[i + 1].as_str(), 0xffff) {
                        r.nations = v as u16;
                    }
                }
            } else if same_text(a, "--player") {
                if has_next {
                    if let Some(v) = parse_uint(args[i + 1].as_str(), 0xffff) {
                        r.player = v as u16;
                    }
                }
            } else if same_text(a, "--pre-turns") {
                if has_next {
                    if let Some(v) = parse_uint(args[i + 1].as_str(), usize::MAX as u64) {
                        r.pre_turns = v as usize;
                    }
                }
            } else if same_text(a, "--px") {
                if has_next {
                    if let Some(v) = parse_uint(args[i + 1].as_str(), 0xffff_ffff) {
                        r.px = v as u32;
                    }
                }
            } else if same_text(a, "--headless") {
                r.headless = true;
                proof {
                    assert(r.model().7 =~~= before.7);
                }
                i = i + 1;
                continue;
            } else if same_text(a, "--shot") {
                r.shot = if has_next { Some(String::from_str(args[i + 1].as_str())) } else { None };
            } else {
                r.ignored.push(String::from_str(a));
                proof {
                    assert(r.model().7 =~~= before.7.push(a@));
                }
                i = i + 1;
                continue;
            }
            proof {
                assert(r.model().7 =~~= before.7);
            }
            i = j;
        }
        r
    }
}

} // verus!
