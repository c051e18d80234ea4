//! The command line of the server and how it is read.

use vstd::prelude::*;

verus! {

/// The command line settings of the server.
pub struct ExecutionParameters {
    pub port: u16,
    pub expose: bool,
    pub mock_files_dir: Option<String>,
    pub disable_access_log: bool,
    pub request_history_limit: usize,
    /// Opens an editor to type mocks in.
    pub interactive: bool,
    /// Interactive mode that asks whether to load and save.
    pub interactive_ask: bool,
    /// Loads the persistent mock file when it exists.
    pub load: bool,
    /// Saves the persistent mock file.
    pub save: bool,
}

/// The mathematical value of the settings.
pub ghost struct ParamsView {
    pub port: u16,
    pub expose: bool,
    pub mock_files_dir: Option<Seq<char>>,
    pub disable_access_log: bool,
    pub request_history_limit: usize,
    pub interactive: bool,
    pub interactive_ask: bool,
    pub load: bool,
    pub save: bool,
}

impl View for ExecutionParameters {
    type V = ParamsView;

    open spec fn view(&self) -> ParamsView {
        ParamsView {
            port: self.port,
            expose: self.expose,
            mock_files_dir: match self.mock_files_dir {
                Some(d) => Some(d@),
                None => None,
            },
            disable_access_log: self.disable_access_log,
            request_history_limit: self.request_history_limit,
            interactive: self.interactive,
            interactive_ask: self.interactive_ask,
            load: self.load,
            save: self.save,
        }
    }
}

/// Why a command line was refused.
#[derive(PartialEq, Eq, Structural, Clone, Copy, Debug)]
pub enum ParamsError {
    /// An argument that names no option.
    UnknownArgument,
    /// An option that takes a value came last.
    MissingValue,
    /// A number that does not parse or does not fit.
    InvalidValue,
}

/// The options of the command line.
#[derive(PartialEq, Eq, Structural, Clone, Copy, Debug)]
pub enum Flag {
    Port,
    Expose,
    MockFilesDir,
    DisableAccessLog,
    RequestHistoryLimit,
    Interactive,
    InteractiveAsk,
    Load,
    Save,
}

pub const DEFAULT_PORT: u16 = 5050;

pub const DEFAULT_HISTORY_LIMIT: usize = 100;

/// The settings when no option is given.
pub open spec fn default_view() -> ParamsView {
    ParamsView {
        port: DEFAULT_PORT,
        expose: false,
        mock_files_dir: None,
        disable_access_log: false,
        request_history_limit: DEFAULT_HISTORY_LIMIT,
        interactive: false,
        interactive_ask: false,
        load: false,
        save: false,
    }
}

/// The option a one-letter name stands for.
pub open spec fn short_flag(c: char) -> Option<Flag> {
    if c == 'p' {
        Some(Flag::Port)
    } else if c == 'e' {
        Some(Flag::Expose)
    } else if c == 'm' {
        Some(Flag::MockFilesDir)
    } else if c == 'd' {
        Some(Flag::DisableAccessLog)
    } else if c == 'r' {
        Some(Flag::RequestHistoryLimit)
    } else if c == 'i' {
        Some(Flag::Interactive)
    } else if c == 'I' {
        Some(Flag::InteractiveAsk)
    } else if c == 'l' {
        Some(Flag::Load)
    } else if c == 's' {
        Some(Flag::Save)
    } else {
        None
    }
}

/// The option a long name stands for.
pub open spec fn long_flag(name: Seq<char>) -> Option<Flag> {
    if name == "port"@ {
        Some(Flag::Port)
    } else if name == "expose"@ {
        Some(Flag::Expose)
    } else if name == "mock-files-dir"@ {
        Some(Flag::MockFilesDir)
    } else if name == "disable-access-log"@ {
        Some(Flag::DisableAccessLog)
    } else if name == "request-history-limit"@ {
        Some(Flag::RequestHistoryLimit)
    } else if name == "interactive"@ {
        Some(Flag::Interactive)
    } else if name == "interactive-ask"@ {
        Some(Flag::InteractiveAsk)
    } else if name == "load"@ {
        Some(Flag::Load)
    } else if name == "save"@ {
        Some(Flag::Save)
    } else {
        None
    }
}

pub open spec fn takes_value(f: Flag) -> bool {
    f == Flag::Port || f == Flag::MockFilesDir || f == Flag::RequestHistoryLimit
}

/// The settings with a switch turned on.
pub open spec fn with_switch(st: ParamsView, f: Flag) -> ParamsView {
    match f {
        Flag::Expose => ParamsView { expose: true, ..st },
        Flag::DisableAccessLog => ParamsView { disable_access_log: true, ..st },
        Flag::Interactive => ParamsView { interactive: true, ..st },
        Flag::InteractiveAsk => ParamsView { interactive_ask: true, ..st },
        Flag::Load => ParamsView { load: true, ..st },
        Flag::Save => ParamsView { save: true, ..st },
        _ => st,
    }
}

pub open spec fn is_digit(c: char) -> bool {
    '0' <= c && c <= '9'
}

/// The number a text of decimal digits stands for.
pub open spec fn decimal(s: Seq<char>) -> nat
    decreases s.len(),
{
    if s.len() == 0 {
        0
    } else {
        decimal(s.drop_last()) * 10 + ((s.last() as u32) - ('0' as u32)) as nat
    }
}

/// The text is a decimal number of at most `max`.
pub open spec fn decimal_within(s: Seq<char>, max: nat) -> bool {
    &&& s.len() > 0
    &&& forall|i: int| 0 <= i < s.len() ==> is_digit(#[trigger] s[i])
    &&& decimal(s) <= max
}

/// The settings with an option's value set.
pub open spec fn with_value(st: ParamsView, f: Flag, v: Seq<char>) -> Result<ParamsView, ParamsError> {
    match f {
        Flag::Port => if decimal_within(v, u16::MAX as nat) {
            Ok(ParamsView { port: decimal(v) as u16, ..st })
        } else {
            Err(ParamsError::InvalidValue)
        },
        Flag::RequestHistoryLimit => if decimal_within(v, usize::MAX as nat) {
            Ok(ParamsView { request_history_limit: decimal(v) as usize, ..st })
        } else {
            Err(ParamsError::InvalidValue)
        },
        _ => Ok(ParamsView { mock_files_dir: Some(v), ..st }),
    }
}

/// The length of the argument at `i`, or 0 past the end.
pub open spec fn arg_len(args: Seq<Seq<char>>, i: int) -> int {
    if 0 <= i < args.len() {
        args[i].len() as int
    } else {
        0
    }
}

/// Reads the arguments from position `i`, at character `j` of that argument
/// (0: at its start, otherwise inside a cluster of one-letter options).
/// `--name` is a long option; `-abc` a cluster of one-letter options; an
/// option that takes a value takes the rest of its cluster or, when that is
/// empty, the next argument.
pub open spec fn parse_from(args: Seq<Seq<char>>, i: int, j: int, st: ParamsView) -> Result<
    ParamsView,
    ParamsError,
>
    decreases args.len() - i, arg_len(args, i) - j,
    when 0 <= i && 0 <= j
{
    if i >= args.len() {
        Ok(st)
    } else {
        let a = args[i];
        if j == 0 {
            if a.len() >= 2 && a[0] == '-' && a[1] == '-' {
                match long_flag(a.subrange(2, a.len() as int)) {
                    None => Err(ParamsError::UnknownArgument),
                    Some(f) => if takes_value(f) {
                        if i + 1 < args.len() {
                            match with_value(st, f, args[i + 1]) {
                                Ok(st2) => parse_from(args, i + 2, 0, st2),
                                Err(e) => Err(e),
                            }
                        } else {
                            Err(ParamsError::MissingValue)
                        }
                    } else {
                        parse_from(args, i + 1, 0, with_switch(st, f))
                    },
                }
            } else if a.len() >= 2 && a[0] == '-' {
                parse_from(args, i, 1, st)
            } else {
                Err(ParamsError::UnknownArgument)
            }
        } else if j >= a.len() {
            parse_from(args, i + 1, 0, st)
        } else {
            match short_flag(a[j]) {
                None => Err(ParamsError::UnknownArgument),
                Some(f) => if takes_value(f) {
                    if j + 1 < a.len() {
                        match with_value(st, f, a.subrange(j + 1, a.len() as int)) {
                            Ok(st2) => parse_from(args, i + 1, 0, st2),
                            Err(e) => Err(e),
                        }
                    } else if i + 1 < args.len() {
                        match with_value(st, f, args[i + 1]) {
                            Ok(st2) => parse_from(args, i + 2, 0, st2),
                            Err(e) => Err(e),
                        }
                    } else {
                        Err(ParamsError::MissingValue)
                    }
                } else {
                    parse_from(args, i, j + 1, with_switch(st, f))
                },
            }
        }
    }
}

/// The text of each argument.
pub open spec fn args_view(args: Seq<&str>) -> Seq<Seq<char>> {
    Seq::new(args.len(), |i: int| args[i]@)
}

/// The settings a command line gives; the first argument names the program.
pub open spec fn parse_args(args: Seq<Seq<char>>) -> Result<ParamsView, ParamsError> {
    parse_from(args, 1, 0, default_view())
}

/// A prefix of a text of digits stands for no larger number than the text.
pub proof fn lemma_decimal_grows(s: Seq<char>, k: int)
    requires
        0 <= k <= s.len(),
        forall|i: int| 0 <= i < s.len() ==> is_digit(#[trigger] s[i]),
    ensures
        decimal(s.subrange(0, k)) <= decimal(s),
    decreases s.len() - k,
{
    if k < s.len() {
        lemma_decimal_grows(s, k + 1);
        let t = s.subrange(0, k + 1);
        assert(t.drop_last() =~= s.subrange(0, k));
    } else {
        assert(s.subrange(0, k) =~= s);
    }
}

/// Reads a decimal number that fits a `usize`.
pub fn parse_usize(s: &str) -> (r: Option<usize>)
    ensures
        r is Some <==> decimal_within(s@, usize::MAX as nat),
        r is Some ==> r->Some_0 == decimal(s@),
{
    let n = s.unicode_len();
    if n == 0 {
        return None;
    }
    let mut acc: usize = 0;
    let mut i: usize = 0;
    while i < n
        invariant
            n == s@.len(),
            0 <= i <= n,
            forall|k: int| 0 <= k < i ==> is_digit(#[trigger] s@[k]),
            acc == decimal(s@.subrange(0, i as int)),
        decreases n - i,
    {
        let c = s.get_char(i);
        if !('0' <= c && c <= '9') {
            return None;
        }
        let d = ((c as u32) - ('0' as u32)) as usize;
        let ghost t = s@.subrange(0, i + 1);
        assert(t.drop_last() =~= s@.subrange(0, i as int));
        match acc.checked_mul(10) {
            None => {
                proof {
                    assert forall|k: int| 0 <= k < i + 1 implies is_digit(#[trigger] s@[k]) by {}
                    if forall|k: int| 0 <= k < s@.len() ==> is_digit(#[trigger] s@[k]) {
                        lemma_decimal_grows(s@, i + 1);
                    }
                }
                return None;
            },
            Some(m) => match m.checked_add(d) {
                None => {
                    proof {
                        if forall|k: int| 0 <= k < s@.len() ==> is_digit(#[trigger] s@[k]) {
                            lemma_decimal_grows(s@, i + 1);
                        }
                    }
                    return None;
                },
                Some(v) => {
                    acc = v;
                },
            },
        }
        i = i + 1;
    }
    assert(s@.subrange(0, n as int) =~= s@);
    Some(acc)
}

/// The rest of the text from position `from` equals `lit`.
fn rest_is(a: &str, from: usize, n: usize, lit: &str) -> (r: bool)
    requires
        n == a@.len(),
        from <= n,
    ensures
        r == (a@.subrange(from as int, n as int) == lit@),
{
    let m = lit.unicode_len();
    if n - from != m {
        return false;
    }
    let mut k: usize = 0;
    while k < m
        invariant
            n == a@.len(),
            m == lit@.len(),
            from + m == n,
            0 <= k <= m,
            forall|q: int| 0 <= q < k ==> a@[from + q] == lit@[q],
        decreases m - k,
    {
        if a.get_char(from + k) != lit.get_char(k) {
            assert(a@.subrange(from as int, n as int)[k as int] != lit@[k as int]);
            return false;
        }
        k = k + 1;
    }
    assert(a@.subrange(from as int, n as int) =~= lit@);
    true
}

fn long_flag_of(a: &str, n: usize) -> (r: Option<Flag>)
    requires
        n == a@.len(),
        n >= 2,
    ensures
        r == long_flag(a@.subrange(2, n as int)),
{
    if rest_is(a, 2, n, "port") {
        Some(Flag::Port)
    } else if rest_is(a, 2, n, "expose") {
        Some(Flag::Expose)
    } else if rest_is(a, 2, n, "mock-files-dir") {
        Some(Flag::MockFilesDir)
    } else if rest_is(a, 2, n, "disable-access-log") {
        Some(Flag::DisableAccessLog)
    } else if rest_is(a, 2, n, "request-history-limit") {
        Some(Flag::RequestHistoryLimit)
    } else if rest_is(a, 2, n, "interactive") {
        Some(Flag::Interactive)
    } else if rest_is(a, 2, n, "interactive-ask") {
        Some(Flag::InteractiveAsk)
    } else if rest_is(a, 2, n, "load") {
        Some(Flag::Load)
    } else if rest_is(a, 2, n, "save") {
        Some(Flag::Save)
    } else {
        None
    }
}

fn short_flag_of(c: char) -> (r: Option<Flag>)
    ensures
        r == short_flag(c),
{
    if c == 'p' {
        Some(Flag::Port)
    } else if c == 'e' {
        Some(Flag::Expose)
    } else if c == 'm' {
        Some(Flag::MockFilesDir)
    } else if c == 'd' {
        Some(Flag::DisableAccessLog)
    } else if c == 'r' {
        Some(Flag::RequestHistoryLimit)
    } else if c == 'i' {
        Some(Flag::Interactive)
    } else if c == 'I' {
        Some(Flag::InteractiveAsk)
    } else if c == 'l' {
        Some(Flag::Load)
    } else if c == 's' {
        Some(Flag::Save)
    } else {
        None
    }
}

fn flag_takes_value(f: Flag) -> (r: bool)
    ensures
        r == takes_value(f),
{
    f == Flag::Port || f == Flag::MockFilesDir || f == Flag::RequestHistoryLimit
}

impl ExecutionParameters {
    /// The settings when no option is given: port 5050, a history of 100
    /// requests, every switch off.
    pub fn defaults() -> (r: ExecutionParameters)
        ensures
            r@ == default_view(),
    {
        ExecutionParameters {
            port: DEFAULT_PORT,
            expose: false,
            mock_files_dir: None,
            disable_access_log: false,
            request_history_limit: DEFAULT_HISTORY_LIMIT,
            interactive: false,
            interactive_ask: false,
            load: false,
            save: false,
        }
    }

    fn switch_on(&mut self, f: Flag)
        ensures
            final(self)@ == with_switch(old(self)@, f),
    {
        match f {
            Flag::Expose => self.expose = true,
            Flag::DisableAccessLog => self.disable_access_log = true,
            Flag::Interactive => self.interactive = true,
            Flag::InteractiveAsk => self.interactive_ask = true,
            Flag::Load => self.load = true,
            Flag::Save => self.save = true,
            _ => {},
        }
    }

    fn set_value(&mut self, f: Flag, v: &str) -> (r: Result<(), ParamsError>)
        requires
            takes_value(f),
        ensures
            match with_value(old(self)@, f, v@) {
                Ok(st) => r is Ok && final(self)@ == st,
                Err(e) => r == Err::<(), ParamsError>(e),
            },
    {
        match f {
            Flag::Port => match parse_usize(v) {
                Some(n) => {
                    if n <= 65535 {
                        self.port = n as u16;
                        Ok(())
                    } else {
                        Err(ParamsError::InvalidValue)
                    }
                },
                None => Err(ParamsError::InvalidValue),
            },
            Flag::RequestHistoryLimit => match parse_usize(v) {
                Some(n) => {
                    self.request_history_limit = n;
                    Ok(())
                },
                None => Err(ParamsError::InvalidValue),
            },
            _ => {
                self.mock_files_dir = Some(String::from_str(v));
                Ok(())
            },
        }
    }

    /// Reads a command line; the first argument names the program.
    pub fn try_parse_from(args: &[&str]) -> (r: Result<ExecutionParameters, ParamsError>)
        ensures
            match r {
                Ok(p) => parse_args(args_view(args@)) == Ok::<ParamsView, ParamsError>(p@),
                Err(e) => parse_args(args_view(args@)) == Err::<ParamsView, ParamsError>(e),
            },
    {
        let ghost av = args_view(args@);
        let mut st = ExecutionParameters::defaults();
        let mut i: usize = 1;
        let mut j: usize = 0;
        while i < args.len()
            invariant
                av == args_view(args@),
                1 <= i,
                i < args@.len() ==> j <= args@[i as int]@.len(),
                parse_args(av) == parse_from(av, i as int, j as int, st@),
            decreases args@.len() - i, arg_len(av, i as int) - j,
        {
            let a = args[i];
            let n = a.unicode_len();
            assert(av[i as int] == a@);
            if j == 0 {
                if n >= 2 && a.get_char(0) == '-' && a.get_char(1) == '-' {
                    match long_flag_of(a, n) {
                        None => {
                            return Err(ParamsError::UnknownArgument);
                        },
                        Some(f) => {
                            if flag_takes_value(f) {
                                if i + 1 < args.len() {
                                    assert(av[i + 1] == args@[i + 1]@);
                                    match st.set_value(f, args[i + 1]) {
                                        Ok(()) => {},
                                        Err(e) => {
                                            return Err(e);
                                        },
                                    }
                                    i = i + 2;
                                    j = 0;
                                } else {
                                    return Err(ParamsError::MissingValue);
                                }
                            } else {
                                st.switch_on(f);
                                i = i + 1;
                                j = 0;
                            }
                        },
                    }
                } else if n >= 2 && a.get_char(0) == '-' {
                    j = 1;
                } else {
                    return Err(ParamsError::UnknownArgument);
                }
            } else if j >= n {
                i = i + 1;
                j = 0;
            } else {
                match short_flag_of(a.get_char(j)) {
                    None => {
                        return Err(ParamsError::UnknownArgument);
                    },
                    Some(f) => {
                        if flag_takes_value(f) {
                            if j + 1 < n {
                                let rest = a.substring_char(j + 1, n);
                                match st.set_value(f, rest) {
                                    Ok(()) => {},
                                    Err(e) => {
                                        return Err(e);
                                    },
                                }
                                i = i + 1;
                                j = 0;
                            } else if i + 1 < args.len() {
                                assert(av[i + 1] == args@[i + 1]@);
                                match st.set_value(f, args[i + 1]) {
                                    Ok(()) => {},
                                    Err(e) => {
                                        return Err(e);
                                    },
                                }
                                i = i + 2;
                                j = 0;
                            } else {
                                return Err(ParamsError::MissingValue);
                            }
                        } else {
                            st.switch_on(f);
                            j = j + 1;
                        }
                    },
                }
            }
        }
        Ok(st)
    }

    /// Interactive mode, plain or asking.
    pub fn is_interactive(&self) -> (r: bool)
        ensures
            r == (self.interactive || self.interactive_ask),
    {
        self.interactive || self.interactive_ask
    }

    /// Whether the persistent mock file is saved.
    pub fn is_save(&self) -> (r: bool)
        ensures
            r == self.save,
    {
        self.save
    }
}

} // verus!
