//! The textual command grammar of the interactive front end.
//!
//! A command line is parsed into a structured command value.  Strings are
//! either unquoted (ending at the first space) or single-quoted with
//! backslash escapes.  Each parser returns the unconsumed rest of the input
//! beside the parsed value, and its contract ties both to the grammar's
//! specification functions.

use vstd::prelude::*;
use vstd::string::StrSliceExecFns;
use vstd::string::StringExecFns;

verus! {

/// The whitespace that separates command words.
pub open spec fn is_space(c: char) -> bool {
    c == ' ' || c == '\t' || c == '\n' || c == '\r'
}

/// An unquoted string: everything up to the first space.
pub open spec fn spec_parse_unquoted(s: Seq<char>) -> (Seq<char>, Seq<char>)
    decreases s.len(),
{
    if s.len() == 0 {
        (Seq::empty(), Seq::empty())
    } else if s[0] == ' ' {
        (Seq::empty(), s)
    } else {
        let t = spec_parse_unquoted(s.drop_first());
        (seq![s[0]] + t.0, t.1)
    }
}

/// The inside of a quoted string, after the opening quote: ordinary
/// characters until the closing quote, where a backslash after an ordinary
/// character escapes the character that follows it.
pub open spec fn spec_quoted_body(s: Seq<char>) -> Option<(Seq<char>, Seq<char>)>
    decreases s.len(),
{
    if s.len() == 0 {
        None
    } else if s[0] == '\'' {
        Some((Seq::empty(), s.skip(1)))
    } else if s[0] == '\\' {
        None
    } else if s.len() >= 2 && s[1] == '\\' {
        if s.len() >= 3 {
            match spec_quoted_body(s.skip(3)) {
                None => None,
                Some(t) => Some((seq![s[0], s[2]] + t.0, t.1)),
            }
        } else {
            None
        }
    } else {
        match spec_quoted_body(s.skip(1)) {
            None => None,
            Some(t) => Some((seq![s[0]] + t.0, t.1)),
        }
    }
}

/// A quoted string: an opening quote, the body, a closing quote.
pub open spec fn spec_parse_quoted(s: Seq<char>) -> Option<(Seq<char>, Seq<char>)> {
    if s.len() >= 1 && s[0] == '\'' {
        spec_quoted_body(s.skip(1))
    } else {
        None
    }
}

/// A quoted or unquoted string.
pub open spec fn spec_parse_str(s: Seq<char>) -> (Seq<char>, Seq<char>) {
    match spec_parse_quoted(s) {
        Some(t) => t,
        None => spec_parse_unquoted(s),
    }
}

/// Whitespace, maximal munch.
pub open spec fn spec_skip_ws(s: Seq<char>) -> Seq<char>
    decreases s.len(),
{
    if s.len() > 0 && is_space(s[0]) {
        spec_skip_ws(s.drop_first())
    } else {
        s
    }
}

/// One or more whitespace characters.
pub open spec fn spec_ws1(s: Seq<char>) -> Option<Seq<char>> {
    if s.len() > 0 && is_space(s[0]) {
        Some(spec_skip_ws(s))
    } else {
        None
    }
}

pub open spec fn is_digit(c: char) -> bool {
    '0' <= c <= '9'
}

pub open spec fn digit_val(c: char) -> int {
    c as int - '0' as int
}

/// The leading run of decimal digits and what follows it.
pub open spec fn spec_parse_digits(s: Seq<char>) -> (Seq<char>, Seq<char>)
    decreases s.len(),
{
    if s.len() == 0 {
        (Seq::empty(), Seq::empty())
    } else if !is_digit(s[0]) {
        (Seq::empty(), s)
    } else {
        let t = spec_parse_digits(s.drop_first());
        (seq![s[0]] + t.0, t.1)
    }
}

/// The numeric value of a digit run.
pub open spec fn digits_val(ds: Seq<char>) -> int
    decreases ds.len(),
{
    if ds.len() == 0 {
        0
    } else {
        digits_val(ds.drop_last()) * 10 + digit_val(ds.last())
    }
}

/// A decimal number that fits an `i32`: one or more digits, no sign.
pub open spec fn spec_parse_i32(s: Seq<char>) -> Option<(int, Seq<char>)> {
    let t = spec_parse_digits(s);
    if t.0.len() == 0 {
        None
    } else if digits_val(t.0) > i32::MAX {
        None
    } else {
        Some((digits_val(t.0), t.1))
    }
}

pub open spec fn starts_with(s: Seq<char>, t: Seq<char>) -> bool {
    t.len() <= s.len() && s.subrange(0, t.len() as int) == t
}

/// The shape of a parsed data command, over character sequences.
pub enum MapCommandModel {
    List,
    Get { key: Seq<char> },
    Put { key: Seq<char>, value: Seq<char> },
    Delete { key: Seq<char> },
}

/// `list`, `get <key>`, `set <key> <value>` or `delete <key>`.
pub open spec fn spec_parse_map_command(s: Seq<char>) -> Option<(Seq<char>, MapCommandModel)> {
    if starts_with(s, "list"@) {
        Some((s.skip("list"@.len() as int), MapCommandModel::List))
    } else if starts_with(s, "get"@) {
        match spec_ws1(s.skip("get"@.len() as int)) {
            None => None,
            Some(r1) => {
                let t = spec_parse_str(r1);
                Some((t.1, MapCommandModel::Get { key: t.0 }))
            },
        }
    } else if starts_with(s, "set"@) {
        match spec_ws1(s.skip("set"@.len() as int)) {
            None => None,
            Some(r1) => {
                let t = spec_parse_str(r1);
                match spec_ws1(t.1) {
                    None => None,
                    Some(r2) => {
                        let u = spec_parse_str(r2);
                        Some((u.1, MapCommandModel::Put { key: t.0, value: u.0 }))
                    },
                }
            },
        }
    } else if starts_with(s, "delete"@) {
        match spec_ws1(s.skip("delete"@.len() as int)) {
            None => None,
            Some(r1) => {
                let t = spec_parse_str(r1);
                Some((t.1, MapCommandModel::Delete { key: t.0 }))
            },
        }
    } else {
        None
    }
}

/// The shape of a parsed crypt command, over character sequences.
pub enum CryptCommandModel {
    List,
    Unlock { alias: Seq<char>, filepath: Seq<char> },
    Lock { alias: Seq<char> },
    Data { alias: Seq<char>, cmd: MapCommandModel },
}

/// `list`, `unlock <alias> <filepath>`, `lock <alias>` or
/// `data <alias> <map command>`.
pub open spec fn spec_parse_crypt_command(s: Seq<char>) -> Option<(Seq<char>, CryptCommandModel)> {
    if starts_with(s, "list"@) {
        Some((s.skip("list"@.len() as int), CryptCommandModel::List))
    } else if starts_with(s, "unlock"@) {
        match spec_ws1(s.skip("unlock"@.len() as int)) {
            None => None,
            Some(r1) => {
                let t = spec_parse_str(r1);
                match spec_ws1(t.1) {
                    None => None,
                    Some(r2) => {
                        let u = spec_parse_str(r2);
                        Some((u.1, CryptCommandModel::Unlock { alias: t.0, filepath: u.0 }))
                    },
                }
            },
        }
    } else if starts_with(s, "lock"@) {
        match spec_ws1(s.skip("lock"@.len() as int)) {
            None => None,
            Some(r1) => {
                let t = spec_parse_str(r1);
                Some((t.1, CryptCommandModel::Lock { alias: t.0 }))
            },
        }
    } else if starts_with(s, "data"@) {
        match spec_ws1(s.skip("data"@.len() as int)) {
            None => None,
            Some(r1) => {
                let t = spec_parse_str(r1);
                match spec_ws1(t.1) {
                    None => None,
                    Some(r2) => match spec_parse_map_command(r2) {
                        None => None,
                        Some(u) => Some(
                            (u.0, CryptCommandModel::Data { alias: t.0, cmd: u.1 }),
                        ),
                    },
                }
            },
        }
    } else {
        None
    }
}

/// `<code> [--no-save]`: a failed flag parse backtracks and leaves the rest
/// untouched.
pub open spec fn spec_parse_exit_command(s: Seq<char>) -> Option<
    (Seq<char>, ReplExitCommand),
> {
    match spec_parse_i32(s) {
        None => None,
        Some((code, r1)) => match spec_ws1(r1) {
            Some(r2) => if starts_with(r2, "--no-save"@) {
                Some(
                    (
                        r2.skip("--no-save"@.len() as int),
                        ReplExitCommand { code: code as i32, no_save: true },
                    ),
                )
            } else {
                Some((r1, ReplExitCommand { code: code as i32, no_save: false }))
            },
            None => Some((r1, ReplExitCommand { code: code as i32, no_save: false })),
        },
    }
}

/// The shape of a parsed top-level command, over character sequences.
pub enum CommandModel {
    ClearScreen,
    Help,
    Exit(ReplExitCommand),
    Crypt(CryptCommandModel),
}

/// `clear`, `help`, `exit <exit command>` or `crypt <crypt command>`.
pub open spec fn spec_parse_command(s: Seq<char>) -> Option<(Seq<char>, CommandModel)> {
    if starts_with(s, "clear"@) {
        Some((s.skip("clear"@.len() as int), CommandModel::ClearScreen))
    } else if starts_with(s, "help"@) {
        Some((s.skip("help"@.len() as int), CommandModel::Help))
    } else if starts_with(s, "exit"@) {
        match spec_ws1(s.skip("exit"@.len() as int)) {
            None => None,
            Some(r1) => match spec_parse_exit_command(r1) {
                None => None,
                Some(t) => Some((t.0, CommandModel::Exit(t.1))),
            },
        }
    } else if starts_with(s, "crypt"@) {
        match spec_ws1(s.skip("crypt"@.len() as int)) {
            None => None,
            Some(r1) => match spec_parse_crypt_command(r1) {
                None => None,
                Some(t) => Some((t.0, CommandModel::Crypt(t.1))),
            },
        }
    } else {
        None
    }
}

/// A data command against the mapping of an open alias.
#[derive(Debug, Clone, PartialEq, Eq)]
pub enum ReplMapCommand {
    /// `list`
    List,
    /// `get <key>`
    Get { key: String },
    /// `set <key> <value>`
    Put { key: String, value: String },
    /// `delete <key>`
    Delete { key: String },
}

impl ReplMapCommand {
    pub open spec fn model(self) -> MapCommandModel {
        match self {
            ReplMapCommand::List => MapCommandModel::List,
            ReplMapCommand::Get { key } => MapCommandModel::Get { key: key@ },
            ReplMapCommand::Put { key, value } => MapCommandModel::Put {
                key: key@,
                value: value@,
            },
            ReplMapCommand::Delete { key } => MapCommandModel::Delete { key: key@ },
        }
    }
}

/// A command on the registry of open files.
#[derive(Debug, Clone, PartialEq, Eq)]
pub enum ReplCryptCommand {
    /// `list`
    List,
    /// `unlock <alias> <filepath>`
    Unlock { alias: String, filepath: String },
    /// `lock <alias>`
    Lock { alias: String },
    /// `data <alias> <map command>`
    Data { alias: String, cmd: ReplMapCommand },
}

impl ReplCryptCommand {
    pub open spec fn model(self) -> CryptCommandModel {
        match self {
            ReplCryptCommand::List => CryptCommandModel::List,
            ReplCryptCommand::Unlock { alias, filepath } => CryptCommandModel::Unlock {
                alias: alias@,
                filepath: filepath@,
            },
            ReplCryptCommand::Lock { alias } => CryptCommandModel::Lock { alias: alias@ },
            ReplCryptCommand::Data { alias, cmd } => CryptCommandModel::Data {
                alias: alias@,
                cmd: cmd.model(),
            },
        }
    }
}

/// `exit <code> [--no-save]`.
#[derive(Debug, Clone, Copy, PartialEq, Eq, Structural)]
pub struct ReplExitCommand {
    pub code: i32,
    pub no_save: bool,
}

impl Default for ReplExitCommand {
    /// Exit code zero, saving open files.
    fn default() -> (r: Self)
        ensures
            r.code == 0 && !r.no_save,
    {
        ReplExitCommand { code: 0, no_save: false }
    }
}

/// A whole command line.
#[derive(Debug, Clone, PartialEq, Eq)]
pub enum ReplCommand {
    ClearScreen,
    Help,
    Exit(ReplExitCommand),
    Crypt(ReplCryptCommand),
}

impl ReplCommand {
    pub open spec fn model(self) -> CommandModel {
        match self {
            ReplCommand::ClearScreen => CommandModel::ClearScreen,
            ReplCommand::Help => CommandModel::Help,
            ReplCommand::Exit(e) => CommandModel::Exit(e),
            ReplCommand::Crypt(c) => CommandModel::Crypt(c.model()),
        }
    }
}

proof fn lemma_unquoted_at(s: Seq<char>, i: int)
    requires
        0 <= i <= s.len(),
        forall|j: int| 0 <= j < i ==> s[j] != ' ',
        i == s.len() || s[i] == ' ',
    ensures
        spec_parse_unquoted(s) == (s.take(i), s.skip(i)),
    decreases i,
{
    if s.len() == 0 {
        assert(s.take(i) =~= Seq::<char>::empty());
        assert(s.skip(i) =~= Seq::<char>::empty());
    } else if i == 0 {
        assert(s.take(0) =~= Seq::<char>::empty());
        assert(s.skip(0) =~= s);
    } else {
        lemma_unquoted_at(s.drop_first(), i - 1);
        assert(seq![s[0]] + s.drop_first().take(i - 1) =~= s.take(i));
        assert(s.drop_first().skip(i - 1) =~= s.skip(i));
    }
}

proof fn lemma_skip_ws_at(s: Seq<char>, i: int)
    requires
        0 <= i <= s.len(),
        forall|j: int| 0 <= j < i ==> is_space(s[j]),
        i == s.len() || !is_space(s[i]),
    ensures
        spec_skip_ws(s) == s.skip(i),
    decreases i,
{
    if i == 0 {
        assert(s.skip(0) =~= s);
    } else {
        lemma_skip_ws_at(s.drop_first(), i - 1);
        assert(s.drop_first().skip(i - 1) =~= s.skip(i));
    }
}

proof fn lemma_digits_at(s: Seq<char>, i: int)
    requires
        0 <= i <= s.len(),
        forall|j: int| 0 <= j < i ==> is_digit(s[j]),
        i == s.len() || !is_digit(s[i]),
    ensures
        spec_parse_digits(s) == (s.take(i), s.skip(i)),
    decreases i,
{
    if s.len() == 0 {
        assert(s.take(i) =~= Seq::<char>::empty());
        assert(s.skip(i) =~= Seq::<char>::empty());
    } else if i == 0 {
        assert(s.take(0) =~= Seq::<char>::empty());
        assert(s.skip(0) =~= s);
    } else {
        lemma_digits_at(s.drop_first(), i - 1);
        assert(seq![s[0]] + s.drop_first().take(i - 1) =~= s.take(i));
        assert(s.drop_first().skip(i - 1) =~= s.skip(i));
    }
}

proof fn lemma_digits_val_nonneg(ds: Seq<char>)
    requires
        forall|j: int| 0 <= j < ds.len() ==> is_digit(ds[j]),
    ensures
        digits_val(ds) >= 0,
    decreases ds.len(),
{
    if ds.len() > 0 {
        assert(forall|j: int| 0 <= j < ds.drop_last().len() ==> is_digit(ds.drop_last()[j]));
        lemma_digits_val_nonneg(ds.drop_last());
    }
}

proof fn lemma_digits_val_prefix(ds: Seq<char>, i: int)
    requires
        0 <= i <= ds.len(),
        forall|j: int| 0 <= j < ds.len() ==> is_digit(ds[j]),
    ensures
        digits_val(ds.take(i)) <= digits_val(ds),
    decreases ds.len() - i,
{
    if i == ds.len() {
        assert(ds.take(i) =~= ds);
    } else {
        lemma_digits_val_prefix(ds, i + 1);
        let p = ds.take(i + 1);
        assert(p.drop_last() =~= ds.take(i));
        assert(forall|j: int| 0 <= j < ds.take(i).len() ==> is_digit(ds.take(i)[j]));
        lemma_digits_val_nonneg(ds.take(i));
        assert(digits_val(p) == digits_val(ds.take(i)) * 10 + digit_val(ds[i]));
        assert(digit_val(ds[i]) >= 0);
        assert(digits_val(ds.take(i)) * 10 >= digits_val(ds.take(i))) by (nonlinear_arith)
            requires
                digits_val(ds.take(i)) >= 0,
        ;
    }
}

/// Index where the leading digit run of `s` ends.
fn digit_run_end(s: &str) -> (i: usize)
    ensures
        i <= s@.len(),
        forall|j: int| 0 <= j < i ==> is_digit(s@[j]),
        i == s@.len() || !is_digit(s@[i as int]),
{
    let n = s.unicode_len();
    let mut i: usize = 0;
    while i < n
        invariant
            i <= n,
            n == s@.len(),
            forall|j: int| 0 <= j < i ==> is_digit(s@[j]),
        decreases n - i,
    {
        let c = s.get_char(i);
        if !('0' <= c && c <= '9') {
            return i;
        }
        i = i + 1;
    }
    n
}

/// Whether `t` occurs at position `pos` of `s`.
fn eq_prefix(s: &str, pos: usize, t: &str) -> (r: bool)
    requires
        pos <= s@.len(),
    ensures
        r == starts_with(s@.skip(pos as int), t@),
{
    let n = s.unicode_len();
    let m = t.unicode_len();
    if n - pos < m {
        return false;
    }
    let mut i: usize = 0;
    while i < m
        invariant
            pos + m <= n,
            n == s@.len(),
            m == t@.len(),
            i <= m,
            forall|j: int| 0 <= j < i ==> s@[pos + j] == t@[j],
        decreases m - i,
    {
        if s.get_char(pos + i) != t.get_char(i) {
            proof {
                assert(s@.skip(pos as int).subrange(0, m as int)[i as int] != t@[i as int]);
            }
            return false;
        }
        i = i + 1;
    }
    proof {
        assert(s@.skip(pos as int).subrange(0, m as int) =~= t@);
    }
    true
}

/// Consumes one or more whitespace characters at `pos`.
fn skip_ws1_from(s: &str, pos: usize) -> (r: Option<usize>)
    requires
        pos <= s@.len(),
    ensures
        match r {
            Some(p) => pos < p <= s@.len() && spec_ws1(s@.skip(pos as int)) == Some(
                s@.skip(p as int),
            ),
            None => spec_ws1(s@.skip(pos as int)) is None,
        },
{
    let n = s.unicode_len();
    if pos >= n {
        return None;
    }
    let c = s.get_char(pos);
    if !(c == ' ' || c == '\t' || c == '\n' || c == '\r') {
        return None;
    }
    let mut i: usize = pos + 1;
    while i < n
        invariant
            pos < i <= n,
            n == s@.len(),
            forall|j: int| pos <= j < i ==> is_space(s@[j]),
        decreases n - i,
    {
        let c2 = s.get_char(i);
        if !(c2 == ' ' || c2 == '\t' || c2 == '\n' || c2 == '\r') {
            proof {
                lemma_skip_ws_at(s@.skip(pos as int), i - pos);
                assert(s@.skip(pos as int).skip(i - pos) =~= s@.skip(i as int));
            }
            return Some(i);
        }
        i = i + 1;
    }
    proof {
        lemma_skip_ws_at(s@.skip(pos as int), n - pos as int);
        assert(s@.skip(pos as int).skip(n - pos as int) =~= s@.skip(n as int));
    }
    Some(n)
}

/// Parses an unquoted string: everything up to the first space.
///
/// Never fails; returns `(rest, value)`.
pub fn parse_unquoted_str(input: &str) -> (r: (String, String))
    ensures
        ({
            let t = spec_parse_unquoted(input@);
            r.0@ == t.1 && r.1@ == t.0
        }),
{
    let n = input.unicode_len();
    let mut i: usize = 0;
    while i < n
        invariant
            i <= n,
            n == input@.len(),
            forall|j: int| 0 <= j < i ==> input@[j] != ' ',
        decreases n - i,
    {
        if input.get_char(i) == ' ' {
            proof {
                lemma_unquoted_at(input@, i as int);
            }
            return (
                input.substring_char(i, n).to_owned(),
                input.substring_char(0, i).to_owned(),
            );
        }
        i = i + 1;
    }
    proof {
        lemma_unquoted_at(input@, n as int);
        assert(input@.take(n as int) =~= input@);
        assert(input@.skip(n as int) =~= Seq::<char>::empty());
    }
    (input.substring_char(n, n).to_owned(), input.substring_char(0, n).to_owned())
}

/// Parses a quoted string with backslash escapes; returns `(rest, value)`.
pub fn parse_quoted_str(input: &str) -> (r: Option<(String, String)>)
    ensures
        r matches Some(t) ==> (spec_parse_quoted(input@) matches Some(st) && st.0 == t.1@
            && st.1 == t.0@),
        r is None ==> spec_parse_quoted(input@) is None,
{
    let n = input.unicode_len();
    if n == 0 {
        return None;
    }
    if input.get_char(0) != '\'' {
        return None;
    }
    let mut value = String::new();
    let mut i: usize = 1;
    while i < n
        invariant
            1 <= i <= n,
            n == input@.len(),
            input@[0] == '\'',
            spec_quoted_body(input@.skip(1)) == match spec_quoted_body(input@.skip(i as int)) {
                Some(t) => Some((value@ + t.0, t.1)),
                None => None::<(Seq<char>, Seq<char>)>,
            },
        decreases n - i,
    {
        let ghost pre = value@;
        let ghost cur = input@.skip(i as int);
        let c = input.get_char(i);
        if c == '\'' {
            proof {
                assert(cur.skip(1) =~= input@.skip(i as int + 1));
                assert(pre + Seq::<char>::empty() =~= pre);
            }
            return Some((input.substring_char(i + 1, n).to_owned(), value));
        }
        if c == '\\' {
            return None;
        }
        if i + 1 < n && input.get_char(i + 1) == '\\' {
            if i + 2 < n {
                value.append(input.substring_char(i, i + 1));
                value.append(input.substring_char(i + 2, i + 3));
                proof {
                    assert(cur.len() >= 3 && cur[1] == '\\');
                    assert(cur.skip(3) =~= input@.skip(i as int + 3));
                    assert(value@ =~= pre + seq![cur[0], cur[2]]);
                    assert forall|t: (Seq<char>, Seq<char>)|
                        pre + (seq![cur[0], cur[2]] + t.0) =~= (pre + seq![cur[0], cur[2]])
                            + t.0 by {}
                }
                i = i + 3;
            } else {
                proof {
                    assert(cur.len() == 2 && cur[1] == '\\');
                }
                return None;
            }
        } else {
            value.append(input.substring_char(i, i + 1));
            proof {
                assert(!(cur.len() >= 2 && cur[1] == '\\'));
                assert(cur.skip(1) =~= input@.skip(i as int + 1));
                assert(value@ =~= pre + seq![cur[0]]);
                assert forall|t: (Seq<char>, Seq<char>)|
                    pre + (seq![cur[0]] + t.0) =~= (pre + seq![cur[0]]) + t.0 by {}
            }
            i = i + 1;
        }
    }
    proof {
        assert(input@.skip(n as int) =~= Seq::<char>::empty());
    }
    None
}

/// Parses a quoted or unquoted string; returns `(rest, value)`.
pub fn parse_str(input: &str) -> (r: (String, String))
    ensures
        ({
            let t = spec_parse_str(input@);
            r.0@ == t.1 && r.1@ == t.0
        }),
{
    match parse_quoted_str(input) {
        Some(t) => t,
        None => parse_unquoted_str(input),
    }
}

/// Parses a decimal `i32`; returns `(rest, value)`.
///
/// Fails when no digit leads the input or the digits overflow an `i32`.
pub fn parse_i32(input: &str) -> (r: Option<(String, i32)>)
    ensures
        r matches Some(t) ==> (spec_parse_i32(input@) matches Some(st) && st.0 == t.1 as int
            && st.1 == t.0@),
        r is None ==> spec_parse_i32(input@) is None,
{
    let n = input.unicode_len();
    let i = digit_run_end(input);
    proof {
        lemma_digits_at(input@, i as int);
    }
    if i == 0 {
        return None;
    }
    let ghost ds = input@.take(i as int);
    let mut acc: u64 = 0;
    let mut j: usize = 0;
    while j < i
        invariant
            j <= i <= n,
            n == input@.len(),
            ds == input@.take(i as int),
            ds.len() == i,
            spec_parse_digits(input@) == (ds, input@.skip(i as int)),
            forall|q: int| 0 <= q < i ==> is_digit(input@[q]),
            acc == digits_val(ds.take(j as int)),
            acc <= i32::MAX,
        decreases i - j,
    {
        let c = input.get_char(j);
        let d: u64 = (c as u32 as u64) - ('0' as u32 as u64);
        proof {
            assert(is_digit(input@[j as int]));
            assert(d == digit_val(ds[j as int]));
            assert(ds.take(j as int + 1).drop_last() =~= ds.take(j as int));
            assert(ds.take(j as int + 1).last() == ds[j as int]);
        }
        acc = acc * 10 + d;
        j = j + 1;
        if acc > i32::MAX as u64 {
            proof {
                assert(forall|q: int| 0 <= q < ds.len() ==> is_digit(ds[q]));
                lemma_digits_val_prefix(ds, j as int);
            }
            return None;
        }
    }
    proof {
        assert(ds.take(i as int) =~= ds);
    }
    Some((input.substring_char(i, n).to_owned(), acc as i32))
}

/// Parses a data command; returns `(rest, value)`.
pub fn parse_map_command(input: &str) -> (r: Option<(String, ReplMapCommand)>)
    ensures
        r matches Some(t) ==> (spec_parse_map_command(input@) matches Some(st) && st.0 == t.0@
            && st.1 == t.1.model()),
        r is None ==> spec_parse_map_command(input@) is None,
{
    let n = input.unicode_len();
    proof {
        assert(input@.skip(0) =~= input@);
    }
    if eq_prefix(input, 0, "list") {
        proof {
            reveal_strlit("list");
        }
        return Some((input.substring_char(4, n).to_owned(), ReplMapCommand::List));
    }
    if eq_prefix(input, 0, "get") {
        proof {
            reveal_strlit("get");
        }
        let p = match skip_ws1_from(input, 3) {
            Some(p) => p,
            None => {
                return None;
            },
        };
        let (rest, key) = parse_str(input.substring_char(p, n));
        return Some((rest, ReplMapCommand::Get { key }));
    }
    if eq_prefix(input, 0, "set") {
        proof {
            reveal_strlit("set");
        }
        let p = match skip_ws1_from(input, 3) {
            Some(p) => p,
            None => {
                return None;
            },
        };
        let (rest1, key) = parse_str(input.substring_char(p, n));
        proof {
            assert(rest1@.skip(0) =~= rest1@);
        }
        let p2 = match skip_ws1_from(rest1.as_str(), 0) {
            Some(p2) => p2,
            None => {
                return None;
            },
        };
        let r1n = rest1.as_str().unicode_len();
        let (rest2, value) = parse_str(rest1.as_str().substring_char(p2, r1n));
        proof {
            assert(rest1@.skip(0) =~= rest1@);
        }
        return Some((rest2, ReplMapCommand::Put { key, value }));
    }
    if eq_prefix(input, 0, "delete") {
        proof {
            reveal_strlit("delete");
        }
        let p = match skip_ws1_from(input, 6) {
            Some(p) => p,
            None => {
                return None;
            },
        };
        let (rest, key) = parse_str(input.substring_char(p, n));
        return Some((rest, ReplMapCommand::Delete { key }));
    }
    None
}

/// Parses a crypt command; returns `(rest, value)`.
pub fn parse_crypt_command(input: &str) -> (r: Option<(String, ReplCryptCommand)>)
    ensures
        r matches Some(t) ==> (spec_parse_crypt_command(input@) matches Some(st) && st.0 == t.0@
            && st.1 == t.1.model()),
        r is None ==> spec_parse_crypt_command(input@) is None,
{
    let n = input.unicode_len();
    proof {
        assert(input@.skip(0) =~= input@);
    }
    if eq_prefix(input, 0, "list") {
        proof {
            reveal_strlit("list");
        }
        return Some((input.substring_char(4, n).to_owned(), ReplCryptCommand::List));
    }
    if eq_prefix(input, 0, "unlock") {
        proof {
            reveal_strlit("unlock");
        }
        let p = match skip_ws1_from(input, 6) {
            Some(p) => p,
            None => {
                return None;
            },
        };
        let (rest1, alias) = parse_str(input.substring_char(p, n));
        proof {
            assert(rest1@.skip(0) =~= rest1@);
        }
        let p2 = match skip_ws1_from(rest1.as_str(), 0) {
            Some(p2) => p2,
            None => {
                return None;
            },
        };
        let r1n = rest1.as_str().unicode_len();
        let (rest2, filepath) = parse_str(rest1.as_str().substring_char(p2, r1n));
        proof {
            assert(rest1@.skip(0) =~= rest1@);
        }
        return Some((rest2, ReplCryptCommand::Unlock { alias, filepath }));
    }
    if eq_prefix(input, 0, "lock") {
        proof {
            reveal_strlit("lock");
        }
        let p = match skip_ws1_from(input, 4) {
            Some(p) => p,
            None => {
                return None;
            },
        };
        let (rest, alias) = parse_str(input.substring_char(p, n));
        return Some((rest, ReplCryptCommand::Lock { alias }));
    }
    if eq_prefix(input, 0, "data") {
        proof {
            reveal_strlit("data");
        }
        let p = match skip_ws1_from(input, 4) {
            Some(p) => p,
            None => {
                return None;
            },
        };
        let (rest1, alias) = parse_str(input.substring_char(p, n));
        proof {
            assert(rest1@.skip(0) =~= rest1@);
        }
        let p2 = match skip_ws1_from(rest1.as_str(), 0) {
            Some(p2) => p2,
            None => {
                return None;
            },
        };
        let r1n = rest1.as_str().unicode_len();
        let inner = match parse_map_command(rest1.as_str().substring_char(p2, r1n)) {
            Some(t) => t,
            None => {
                return None;
            },
        };
        proof {
            assert(rest1@.skip(0) =~= rest1@);
        }
        return Some((inner.0, ReplCryptCommand::Data { alias, cmd: inner.1 }));
    }
    None
}

/// Parses an exit command; returns `(rest, value)`.
pub fn parse_exit_command(input: &str) -> (r: Option<(String, ReplExitCommand)>)
    ensures
        r matches Some(t) ==> (spec_parse_exit_command(input@) matches Some(st) && st.0 == t.0@
            && st.1 == t.1),
        r is None ==> spec_parse_exit_command(input@) is None,
{
    let (rest1, code) = match parse_i32(input) {
        Some(t) => t,
        None => {
            return None;
        },
    };
    proof {
        assert(rest1@.skip(0) =~= rest1@);
    }
    let r1n = rest1.as_str().unicode_len();
    match skip_ws1_from(rest1.as_str(), 0) {
        Some(p) => {
            if eq_prefix(rest1.as_str(), p, "--no-save") {
                proof {
                    reveal_strlit("--no-save");
                    assert(rest1@.skip(p as int).skip(9) =~= rest1@.skip(p as int + 9));
                }
                Some(
                    (
                        rest1.as_str().substring_char(p + 9, r1n).to_owned(),
                        ReplExitCommand { code, no_save: true },
                    ),
                )
            } else {
                Some((rest1, ReplExitCommand { code, no_save: false }))
            }
        },
        None => Some((rest1, ReplExitCommand { code, no_save: false })),
    }
}

/// Parses a whole command line; returns `(rest, value)`.
pub fn parse_command(input: &str) -> (r: Option<(String, ReplCommand)>)
    ensures
        r matches Some(t) ==> (spec_parse_command(input@) matches Some(st) && st.0 == t.0@
            && st.1 == t.1.model()),
        r is None ==> spec_parse_command(input@) is None,
{
    let n = input.unicode_len();
    proof {
        assert(input@.skip(0) =~= input@);
    }
    if eq_prefix(input, 0, "clear") {
        proof {
            reveal_strlit("clear");
        }
        return Some((input.substring_char(5, n).to_owned(), ReplCommand::ClearScreen));
    }
    if eq_prefix(input, 0, "help") {
        proof {
            reveal_strlit("help");
        }
        return Some((input.substring_char(4, n).to_owned(), ReplCommand::Help));
    }
    if eq_prefix(input, 0, "exit") {
        proof {
            reveal_strlit("exit");
        }
        let p = match skip_ws1_from(input, 4) {
            Some(p) => p,
            None => {
                return None;
            },
        };
        let inner = match parse_exit_command(input.substring_char(p, n)) {
            Some(t) => t,
            None => {
                return None;
            },
        };
        return Some((inner.0, ReplCommand::Exit(inner.1)));
    }
    if eq_prefix(input, 0, "crypt") {
        proof {
            reveal_strlit("crypt");
        }
        let p = match skip_ws1_from(input, 5) {
            Some(p) => p,
            None => {
                return None;
            },
        };
        let inner = match parse_crypt_command(input.substring_char(p, n)) {
            Some(t) => t,
            None => {
                return None;
            },
        };
        return Some((inner.0, ReplCommand::Crypt(inner.1)));
    }
    None
}

impl ReplCommand {
    /// Parses a command line, discarding the unconsumed rest.
    pub fn try_from(s: &str) -> (r: Option<ReplCommand>)
        ensures
            r matches Some(c) ==> (spec_parse_command(s@) matches Some(st) && st.1 == c.model()),
            r is None ==> spec_parse_command(s@) is None,
    {
        match parse_command(s) {
            Some(t) => Some(t.1),
            None => None,
        }
    }
}

} // verus!
