//! Backend configuration and its key/value text format.
//!
//! The format is line-oriented: one `key = value` pair per line, split at the
//! first `=`; keys and values are trimmed of blanks (spaces, tabs and
//! carriage returns); empty lines and lines starting with `#` are skipped, as
//! is any line without an `=`; unknown keys are ignored and a repeated key
//! keeps its last value. `plugin_host`, `plugin_port` and `api_key` are
//! required; `backend_port` defaults to 8080. The two ports must be decimal
//! numbers fitting in sixteen bits (an optional leading `+` is accepted).
//! Reading the file from disk happens outside the library; parsing the
//! contents is done and specified here.

use vstd::prelude::*;

verus! {

/// Backend port used when the configuration does not name one.
pub const DEFAULT_BACKEND_PORT: u16 = 8080;

/// The backend port a configuration without a `backend_port` line gets.
pub fn default_backend_port() -> (p: u16)
    ensures
        p == DEFAULT_BACKEND_PORT,
{
    8080
}

/// The settings the backend runs with.
pub struct Config {
    pub plugin_host: String,
    pub plugin_port: u16,
    pub api_key: String,
    pub backend_port: u16,
}

/// The mathematical value of a [`Config`].
pub struct ConfigV {
    pub plugin_host: Seq<char>,
    pub plugin_port: u16,
    pub api_key: Seq<char>,
    pub backend_port: u16,
}

impl View for Config {
    type V = ConfigV;

    open spec fn view(&self) -> ConfigV {
        ConfigV {
            plugin_host: self.plugin_host@,
            plugin_port: self.plugin_port,
            api_key: self.api_key@,
            backend_port: self.backend_port,
        }
    }
}

/// Why a configuration text is rejected. Each variant names the offending
/// key; the first broken line (or, after all lines, the first missing
/// required key in the order host, port, api key) decides.
#[derive(Clone, Copy, PartialEq, Eq, Structural, Debug)]
pub enum ConfigError {
    InvalidPluginPort,
    InvalidBackendPort,
    MissingPluginHost,
    MissingPluginPort,
    MissingApiKey,
}

impl ConfigError {
    /// A human-readable description of the rejection.
    pub fn message(&self) -> (m: &'static str)
        ensures
            m@ == self.message_spec(),
    {
        match self {
            ConfigError::InvalidPluginPort => "Invalid plugin_port",
            ConfigError::InvalidBackendPort => "Invalid backend_port",
            ConfigError::MissingPluginHost => "Missing plugin_host",
            ConfigError::MissingPluginPort => "Missing plugin_port",
            ConfigError::MissingApiKey => "Missing api_key",
        }
    }

    /// A human-readable description of the rejection.
    pub open spec fn message_spec(self) -> Seq<char> {
        match self {
            ConfigError::InvalidPluginPort => "Invalid plugin_port"@,
            ConfigError::InvalidBackendPort => "Invalid backend_port"@,
            ConfigError::MissingPluginHost => "Missing plugin_host"@,
            ConfigError::MissingPluginPort => "Missing plugin_port"@,
            ConfigError::MissingApiKey => "Missing api_key"@,
        }
    }
}

/// A blank a line's ends are trimmed of.
pub open spec fn is_blank(c: char) -> bool {
    c == ' ' || c == '\t' || c == '\r'
}

/// The sequence without its leading blanks.
pub open spec fn trim_start(s: Seq<char>) -> Seq<char>
    decreases s.len(),
{
    if s.len() > 0 && is_blank(s[0]) {
        trim_start(s.skip(1))
    } else {
        s
    }
}

/// The sequence without its trailing blanks.
pub open spec fn trim_end(s: Seq<char>) -> Seq<char>
    decreases s.len(),
{
    if s.len() > 0 && is_blank(s[s.len() - 1]) {
        trim_end(s.take(s.len() - 1))
    } else {
        s
    }
}

/// The sequence without its leading and trailing blanks.
pub open spec fn trim_spec(s: Seq<char>) -> Seq<char> {
    trim_end(trim_start(s))
}

/// Position of the first occurrence of `c`, if any.
pub open spec fn find_first(s: Seq<char>, c: char) -> Option<int>
    decreases s.len(),
{
    if s.len() == 0 {
        None
    } else if s[0] == c {
        Some(0)
    } else {
        match find_first(s.skip(1), c) {
            Option::Some(i) => Some(i + 1),
            Option::None => None,
        }
    }
}

/// What `find_first` finds is the first occurrence.
pub proof fn lemma_find_first_props(s: Seq<char>, c: char)
    ensures
        match find_first(s, c) {
            Option::Some(i) => 0 <= i < s.len() && s[i] == c && (forall|j: int|
                0 <= j < i ==> s[j] != c),
            Option::None => forall|j: int| 0 <= j < s.len() ==> s[j] != c,
        },
    decreases s.len(),
{
    if s.len() == 0 {
    } else if s[0] == c {
    } else {
        lemma_find_first_props(s.skip(1), c);
        let t = s.skip(1);
        match find_first(t, c) {
            Option::Some(i) => {
                assert(s[i + 1] == t[i]);
                assert forall|j: int| 0 <= j < i + 1 implies s[j] != c by {
                    if j > 0 {
                        assert(t[j - 1] != c);
                    }
                }
            },
            Option::None => {
                assert forall|j: int| 0 <= j < s.len() implies s[j] != c by {
                    if j > 0 {
                        assert(t[j - 1] != c);
                    }
                }
            },
        }
    }
}

/// Whether every character is a decimal digit (of a non-empty sequence).
pub open spec fn all_digits(s: Seq<char>) -> bool {
    forall|j: int| 0 <= j < s.len() ==> '0' <= #[trigger] s[j] <= '9'
}

/// The number a sequence of decimal digits denotes.
pub open spec fn digits_val(s: Seq<char>) -> int
    decreases s.len(),
{
    if s.len() == 0 {
        0
    } else {
        digits_val(s.take(s.len() - 1)) * 10 + (s[s.len() - 1] as u32 - '0' as u32)
    }
}

/// The number a port value denotes, if it is a well-formed sixteen-bit
/// decimal: an optional leading `+`, then one or more digits, at most 65535.
pub open spec fn parse_u16_spec(s: Seq<char>) -> Option<u16> {
    let ds = if s.len() > 0 && s[0] == '+' {
        s.skip(1)
    } else {
        s
    };
    if ds.len() > 0 && all_digits(ds) && digits_val(ds) <= u16::MAX {
        Some(digits_val(ds) as u16)
    } else {
        None
    }
}

/// A digit string's value never shrinks as digits are appended.
pub proof fn lemma_digits_val_bounds(s: Seq<char>, j: int)
    requires
        all_digits(s),
        0 <= j <= s.len(),
    ensures
        digits_val(s) >= digits_val(s.take(j)) >= 0,
    decreases s.len() - j,
{
    if j == s.len() {
        assert(s.take(j) =~= s);
        lemma_digits_val_nonneg(s);
    } else {
        lemma_digits_val_bounds(s, j + 1);
        assert(s.take(j + 1).take(j) =~= s.take(j));
        assert(digits_val(s.take(j + 1)) == digits_val(s.take(j)) * 10 + (s[j] as u32
            - '0' as u32));
        lemma_digits_val_nonneg(s.take(j));
    }
}

/// A digit string's value is never negative.
pub proof fn lemma_digits_val_nonneg(s: Seq<char>)
    requires
        all_digits(s),
    ensures
        digits_val(s) >= 0,
    decreases s.len(),
{
    if s.len() > 0 {
        assert(all_digits(s.take(s.len() - 1)));
        lemma_digits_val_nonneg(s.take(s.len() - 1));
    }
}

/// Whether the character is a blank that trimming removes.
fn is_blank_char(c: char) -> (b: bool)
    ensures
        b == is_blank(c),
{
    c == ' ' || c == '\t' || c == '\r'
}

/// Trim the text's leading and trailing blanks.
fn trim(s: &str) -> (r: &str)
    ensures
        r@ == trim_spec(s@),
{
    let n = s.unicode_len();
    let mut start: usize = 0;
    proof {
        assert(s@.skip(0) =~= s@);
    }
    while start < n && is_blank_char(s.get_char(start))
        invariant
            0 <= start <= n,
            n == s@.len(),
            trim_start(s@) == trim_start(s@.skip(start as int)),
        decreases n - start,
    {
        proof {
            assert(s@.skip(start as int)[0] == s@[start as int]);
            assert(s@.skip(start as int).skip(1) =~= s@.skip(start as int + 1));
        }
        start = start + 1;
    }
    proof {
        assert(trim_start(s@) == s@.skip(start as int));
        assert(s@.skip(start as int) =~= s@.subrange(start as int, n as int));
    }
    let mut end: usize = n;
    while end > start && is_blank_char(s.get_char(end - 1))
        invariant
            start <= end <= n,
            n == s@.len(),
            trim_start(s@) == s@.skip(start as int),
            trim_end(s@.skip(start as int)) == trim_end(s@.subrange(start as int, end as int)),
        decreases end,
    {
        proof {
            let sub = s@.subrange(start as int, end as int);
            assert(sub[sub.len() - 1] == s@[end - 1]);
            assert(sub.take(sub.len() - 1) =~= s@.subrange(start as int, end as int - 1));
        }
        end = end - 1;
    }
    proof {
        assert(trim_end(s@.subrange(start as int, end as int)) == s@.subrange(
            start as int,
            end as int,
        ));
    }
    s.substring_char(start, end)
}

/// Whether two pieces of text hold the same characters.
pub(crate) fn str_eq(a: &str, b: &str) -> (r: bool)
    ensures
        r <==> a@ == b@,
{
    let na = a.unicode_len();
    let nb = b.unicode_len();
    if na != nb {
        return false;
    }
    let mut i: usize = 0;
    while i < na
        invariant
            i <= na,
            na == a@.len(),
            na == b@.len(),
            forall|j: int| 0 <= j < i ==> a@[j] == b@[j],
        decreases na - i,
    {
        if a.get_char(i) != b.get_char(i) {
            return false;
        }
        i = i + 1;
    }
    proof {
        assert(a@ =~= b@);
    }
    true
}

/// Position of the first occurrence of `c` in the text, if any.
fn index_of(s: &str, c: char) -> (r: Option<usize>)
    ensures
        match r {
            Some(i) => find_first(s@, c) == Some(i as int),
            None => find_first(s@, c) is None,
        },
{
    let n = s.unicode_len();
    let mut i: usize = 0;
    while i < n
        invariant
            i <= n,
            n == s@.len(),
            forall|j: int| 0 <= j < i ==> s@[j] != c,
        decreases n - i,
    {
        if s.get_char(i) == c {
            proof {
                lemma_find_first_props(s@, c);
            }
            return Some(i);
        }
        i = i + 1;
    }
    proof {
        lemma_find_first_props(s@, c);
    }
    None
}

/// Parse a sixteen-bit decimal port value: an optional leading `+`, then one
/// or more digits, at most 65535.
fn parse_u16(s: &str) -> (r: Option<u16>)
    ensures
        r == parse_u16_spec(s@),
{
    let n = s.unicode_len();
    let mut start: usize = 0;
    if n > 0 && s.get_char(0) == '+' {
        start = 1;
    }
    let ghost ds: Seq<char> = if s@.len() > 0 && s@[0] == '+' {
        s@.skip(1)
    } else {
        s@
    };
    proof {
        assert(s@.skip(0) =~= s@);
        assert(ds == s@.skip(start as int));
    }
    if start >= n {
        proof {
            assert(ds.len() == 0);
        }
        return None;
    }
    let mut val: u32 = 0;
    let mut i: usize = start;
    while i < n
        invariant
            start < n,
            start <= i <= n,
            n == s@.len(),
            ds == s@.skip(start as int),
            ds == (if s@.len() > 0 && s@[0] == '+' {
                s@.skip(1)
            } else {
                s@
            }),
            all_digits(ds.take(i as int - start as int)),
            val == digits_val(ds.take(i as int - start as int)),
            val <= 65535,
        decreases n - i,
    {
        let c = s.get_char(i);
        if c < '0' || c > '9' {
            proof {
                assert(ds[i as int - start as int] == s@[i as int]);
                assert(!all_digits(ds));
            }
            return None;
        }
        let d = (c as u32) - ('0' as u32);
        val = val * 10 + d;
        proof {
            let k = i as int - start as int;
            assert(ds.take(k + 1).take(k) =~= ds.take(k));
            assert(ds.take(k + 1)[k] == s@[i as int]);
            assert(all_digits(ds.take(k + 1))) by {
                assert(forall|j: int|
                    0 <= j < k + 1 ==> #[trigger] ds.take(k + 1)[j] == ds.take(k + 1)[j]);
            }
            assert(val == digits_val(ds.take(k + 1)));
        }
        if val > 65535 {
            proof {
                if all_digits(ds) {
                    lemma_digits_val_bounds(ds, i as int - start as int + 1);
                }
            }
            return None;
        }
        i = i + 1;
    }
    proof {
        assert(ds.take(n as int - start as int) =~= ds);
    }
    Some(val as u16)
}

/// The text split at every line break. A final piece with no closing line
/// break still counts as a line; trimming disposes of empty pieces later.
pub open spec fn split_lines(s: Seq<char>) -> Seq<Seq<char>>
    decreases s.len(),
{
    if s.len() == 0 {
        seq![s]
    } else if s[0] == '\n' {
        seq![Seq::<char>::empty()] + split_lines(s.skip(1))
    } else {
        let rest = split_lines(s.skip(1));
        seq![seq![s[0]] + rest[0]] + rest.skip(1)
    }
}

/// Splitting yields at least one line.
pub proof fn lemma_split_lines_nonempty(s: Seq<char>)
    ensures
        split_lines(s).len() >= 1,
    decreases s.len(),
{
    if s.len() > 0 && s[0] != '\n' {
        lemma_split_lines_nonempty(s.skip(1));
    }
}

/// Parser state while lines are processed: the last value seen for each
/// known key.
pub struct ParseState {
    pub host: Option<Seq<char>>,
    pub port: Option<u16>,
    pub key: Option<Seq<char>>,
    pub backend_port: u16,
}

/// The state before any line is processed: nothing seen, default backend
/// port.
pub open spec fn init_state() -> ParseState {
    ParseState { host: None, port: None, key: None, backend_port: DEFAULT_BACKEND_PORT }
}

/// Process one line: skip it if (after trimming) it is empty, a `#` comment,
/// or has no `=`; otherwise split at the first `=`, trim key and value, and
/// record the value under a known key (a repeated key keeps the last value;
/// an unknown key is ignored). A port value that is not a sixteen-bit
/// decimal rejects the whole text.
pub open spec fn apply_line(st: ParseState, l: Seq<char>) -> Result<ParseState, ConfigError> {
    let t = trim_spec(l);
    if t.len() == 0 || t[0] == '#' {
        Ok(st)
    } else {
        match find_first(t, '=') {
            Option::None => Ok(st),
            Option::Some(p) => {
                let k = trim_spec(t.take(p));
                let v = trim_spec(t.skip(p + 1));
                if k == "plugin_host"@ {
                    Ok(ParseState { host: Some(v), ..st })
                } else if k == "plugin_port"@ {
                    match parse_u16_spec(v) {
                        Option::Some(x) => Ok(ParseState { port: Some(x), ..st }),
                        Option::None => Err(ConfigError::InvalidPluginPort),
                    }
                } else if k == "api_key"@ {
                    Ok(ParseState { key: Some(v), ..st })
                } else if k == "backend_port"@ {
                    match parse_u16_spec(v) {
                        Option::Some(x) => Ok(ParseState { backend_port: x, ..st }),
                        Option::None => Err(ConfigError::InvalidBackendPort),
                    }
                } else {
                    Ok(st)
                }
            },
        }
    }
}

/// Process the lines in order, stopping at the first rejection.
pub open spec fn apply_lines(st: ParseState, ls: Seq<Seq<char>>) -> Result<
    ParseState,
    ConfigError,
>
    decreases ls.len(),
{
    if ls.len() == 0 {
        Ok(st)
    } else {
        match apply_line(st, ls[0]) {
            Result::Ok(st2) => apply_lines(st2, ls.skip(1)),
            Result::Err(e) => Err(e),
        }
    }
}

/// What parsing a configuration text yields: the recorded settings, or the
/// first rejection — a bad port line wherever it stands, else the first
/// missing required key in the order host, port, api key.
pub open spec fn parse_config_spec(content: Seq<char>) -> Result<ConfigV, ConfigError> {
    match apply_lines(init_state(), split_lines(content)) {
        Result::Err(e) => Err(e),
        Result::Ok(st) => {
            if st.host is None {
                Err(ConfigError::MissingPluginHost)
            } else if st.port is None {
                Err(ConfigError::MissingPluginPort)
            } else if st.key is None {
                Err(ConfigError::MissingApiKey)
            } else {
                Ok(
                    ConfigV {
                        plugin_host: st.host->Some_0,
                        plugin_port: st.port->Some_0,
                        api_key: st.key->Some_0,
                        backend_port: st.backend_port,
                    },
                )
            }
        },
    }
}

/// The first piece of a split, extended at the front.
spec fn prepend_first(p: Seq<char>, ls: Seq<Seq<char>>) -> Seq<Seq<char>> {
    seq![p + ls[0]] + ls.skip(1)
}

/// The text split at every line break, as borrowed pieces.
fn split_lines_exec<'a>(s: &'a str) -> (lines: Vec<&'a str>)
    ensures
        lines.deep_view() == split_lines(s@),
{
    let n = s.unicode_len();
    let mut lines: Vec<&'a str> = Vec::new();
    let mut ls: usize = 0;
    let mut i: usize = 0;
    proof {
        lemma_split_lines_nonempty(s@);
        assert(s@.subrange(0, 0) =~= Seq::<char>::empty());
        assert(Seq::<char>::empty() + split_lines(s@)[0] =~= split_lines(s@)[0]);
        assert(prepend_first(s@.subrange(0, 0), split_lines(s@.skip(0))) =~= split_lines(s@.skip(0)));
        assert(s@.skip(0) =~= s@);
        assert(lines.deep_view() + split_lines(s@) =~= split_lines(s@));
    }
    while i < n
        invariant
            ls <= i <= n,
            n == s@.len(),
            split_lines(s@) == lines.deep_view() + prepend_first(
                s@.subrange(ls as int, i as int),
                split_lines(s@.skip(i as int)),
            ),
        decreases n - i,
    {
        let ghost rest: Seq<Seq<char>> = split_lines(s@.skip(i as int));
        let ghost rest2: Seq<Seq<char>> = split_lines(s@.skip(i as int + 1));
        let ghost cur: Seq<char> = s@.subrange(ls as int, i as int);
        proof {
            assert(s@.skip(i as int)[0] == s@[i as int]);
            assert(s@.skip(i as int).skip(1) =~= s@.skip(i as int + 1));
            lemma_split_lines_nonempty(s@.skip(i as int + 1));
        }
        if s.get_char(i) == '\n' {
            let line = s.substring_char(ls, i);
            let ghost lines_before: Seq<Seq<char>> = lines.deep_view();
            lines.push(line);
            proof {
                assert(rest =~= seq![Seq::<char>::empty()] + rest2);
                assert(prepend_first(cur, rest) =~= seq![cur] + rest2) by {
                    assert(cur + rest[0] =~= cur);
                    assert(rest.skip(1) =~= rest2);
                }
                assert(lines.deep_view() =~= lines_before + seq![cur]);
                assert(s@.subrange(i as int + 1, i as int + 1) =~= Seq::<char>::empty());
                assert(prepend_first(s@.subrange(i as int + 1, i as int + 1), rest2)
                    =~= rest2) by {
                    assert(Seq::<char>::empty() + rest2[0] =~= rest2[0]);
                    assert(seq![rest2[0]] + rest2.skip(1) =~= rest2);
                }
                assert(lines.deep_view() + prepend_first(
                    s@.subrange(i as int + 1, i as int + 1),
                    rest2,
                ) =~= split_lines(s@));
            }
            ls = i + 1;
        } else {
            proof {
                assert(rest =~= seq![seq![s@[i as int]] + rest2[0]] + rest2.skip(1));
                assert(prepend_first(cur, rest) =~= prepend_first(
                    s@.subrange(ls as int, i as int + 1),
                    rest2,
                )) by {
                    assert(cur + (seq![s@[i as int]] + rest2[0]) =~= s@.subrange(
                        ls as int,
                        i as int + 1,
                    ) + rest2[0]);
                    assert(rest.skip(1) =~= rest2.skip(1));
                }
            }
        }
        i = i + 1;
    }
    let line = s.substring_char(ls, n);
    let ghost lines_before: Seq<Seq<char>> = lines.deep_view();
    lines.push(line);
    proof {
        let ghost cur = s@.subrange(ls as int, n as int);
        assert(s@.skip(n as int) =~= Seq::<char>::empty());
        assert(split_lines(s@.skip(n as int)) == seq![s@.skip(n as int)]);
        assert(prepend_first(cur, split_lines(s@.skip(n as int))) =~= seq![cur]) by {
            assert(cur + s@.skip(n as int) =~= cur);
            assert(seq![cur].skip(0) =~= seq![cur]);
            assert((seq![s@.skip(n as int)]).skip(1) =~= Seq::<Seq<char>>::empty());
            assert(seq![cur + s@.skip(n as int)] + (seq![s@.skip(n as int)]).skip(1) =~= seq![cur]);
        }
        assert(lines.deep_view() =~= lines_before + seq![cur]);
        assert(lines.deep_view() =~= split_lines(s@));
    }
    lines
}

impl Config {
    /// Parse a configuration text. Returns the recorded settings, or the
    /// first rejection: a port line that is not a sixteen-bit decimal wherever
    /// it stands, else the first missing required key in the order
    /// `plugin_host`, `plugin_port`, `api_key`. Reading the file is the
    /// caller's business; this is the whole of the format.
    pub fn parse(content: &str) -> (r: Result<Config, ConfigError>)
        ensures
            match r {
                Result::Ok(c) => parse_config_spec(content@) == Ok::<ConfigV, ConfigError>(c@),
                Result::Err(e) => parse_config_spec(content@) == Err::<ConfigV, ConfigError>(e),
            },
    {
        let lines = split_lines_exec(content);
        let ghost all: Seq<Seq<char>> = lines.deep_view();
        let mut host: Option<String> = None;
        let mut port: Option<u16> = None;
        let mut key: Option<String> = None;
        let mut backend_port: u16 = default_backend_port();
        let count = lines.len();
        let mut k: usize = 0;
        proof {
            assert(all.skip(0) =~= all);
        }
        while k < count
            invariant
                k <= count,
                count == all.len(),
                all == lines.deep_view(),
                count == lines@.len(),
                apply_lines(init_state(), split_lines(content@)) == apply_lines(
                    ParseState {
                        host: host.deep_view(),
                        port: port,
                        key: key.deep_view(),
                        backend_port: backend_port,
                    },
                    all.skip(k as int),
                ),
            decreases count - k,
        {
            let ghost st: ParseState = ParseState {
                host: host.deep_view(),
                port: port,
                key: key.deep_view(),
                backend_port: backend_port,
            };
            let ghost l: Seq<char> = all[k as int];
            proof {
                assert(all.skip(k as int)[0] == l);
                assert(all.skip(k as int).skip(1) =~= all.skip(k as int + 1));
                assert(lines@[k as int]@ == l);
            }
            let line: &str = lines[k];
            let t = trim(line);
            let tn = t.unicode_len();
            if tn == 0 {
                proof {
                    assert(apply_line(st, l) == Ok::<ParseState, ConfigError>(st));
                }
            } else if t.get_char(0) == '#' {
                proof {
                    assert(apply_line(st, l) == Ok::<ParseState, ConfigError>(st));
                }
            } else {
                match index_of(t, '=') {
                    None => {
                        proof {
                            assert(apply_line(st, l) == Ok::<ParseState, ConfigError>(st));
                        }
                    },
                    Some(p) => {
                        proof {
                            lemma_find_first_props(t@, '=');
                        }
                        let k_str = trim(t.substring_char(0, p));
                        let v_str = trim(t.substring_char(p + 1, tn));
                        proof {
                            assert(t@.subrange(0, p as int) =~= t@.take(p as int));
                            assert(t@.subrange(p as int + 1, tn as int) =~= t@.skip(p as int + 1));
                        }
                        if str_eq(k_str, "plugin_host") {
                            host = Some(String::from_str(v_str));
                        } else if str_eq(k_str, "plugin_port") {
                            match parse_u16(v_str) {
                                Some(x) => {
                                    port = Some(x);
                                },
                                None => {
                                    return Err(ConfigError::InvalidPluginPort);
                                },
                            }
                        } else if str_eq(k_str, "api_key") {
                            key = Some(String::from_str(v_str));
                        } else if str_eq(k_str, "backend_port") {
                            match parse_u16(v_str) {
                                Some(x) => {
                                    backend_port = x;
                                },
                                None => {
                                    return Err(ConfigError::InvalidBackendPort);
                                },
                            }
                        }
                    },
                }
            }
            k = k + 1;
        }
        proof {
            assert(all.skip(count as int) =~= Seq::<Seq<char>>::empty());
        }
        let plugin_host = match host {
            Some(h) => h,
            None => {
                return Err(ConfigError::MissingPluginHost);
            },
        };
        let plugin_port = match port {
            Some(p) => p,
            None => {
                return Err(ConfigError::MissingPluginPort);
            },
        };
        let api_key = match key {
            Some(s) => s,
            None => {
                return Err(ConfigError::MissingApiKey);
            },
        };
        Ok(Config { plugin_host, plugin_port, api_key, backend_port })
    }
}

} // verus!
