//! Log records with their context, and the bookkeeping of reported errors.
//!
//! A [`Logger`] turns messages into [`LogRecord`]s that the caller hands to
//! whatever prints them; an [`ErrorObserver`] counts the errors and decides
//! whether processing goes on.
use crate::text::chars_of;
use crate::text::decimal_text;
use crate::text::push_all;
use crate::text::string_of;
use crate::text::usize_to_decimal;
use vstd::prelude::*;

verus! {

/// The severity of a log message.
#[derive(Clone, Copy, Debug, PartialEq, Eq)]
pub enum LogLevel {
    Error,
    Warning,
    Info,
    Trace,
}

pub open spec fn level_text(l: LogLevel) -> Seq<char> {
    match l {
        LogLevel::Error => seq!['E', 'R', 'R', 'O', 'R'],
        LogLevel::Warning => seq!['W', 'A', 'R', 'N', 'I', 'N', 'G'],
        LogLevel::Info => seq!['I', 'N', 'F', 'O'],
        LogLevel::Trace => seq!['T', 'R', 'A', 'C', 'E'],
    }
}

impl LogLevel {
    /// The name of the level in capitals, such as `ERROR`.
    pub fn as_str(&self) -> (r: &'static str)
        ensures
            r@ == level_text(*self),
    {
        match self {
            LogLevel::Error => {
                proof {
                    reveal_strlit("ERROR");
                }
                "ERROR"
            },
            LogLevel::Warning => {
                proof {
                    reveal_strlit("WARNING");
                }
                "WARNING"
            },
            LogLevel::Info => {
                proof {
                    reveal_strlit("INFO");
                }
                "INFO"
            },
            LogLevel::Trace => {
                proof {
                    reveal_strlit("TRACE");
                }
                "TRACE"
            },
        }
    }
}

pub open spec fn colon_space() -> Seq<char> {
    seq![':', ' ']
}

/// A context is empty or starts with `": "`, as each element of it does.
pub open spec fn context_ok(c: Seq<char>) -> bool {
    c.len() == 0 || (c.len() >= 2 && c[0] == ':' && c[1] == ' ')
}

/// One message to log, with the context of the logger that made it.
pub struct LogRecord {
    pub level: LogLevel,
    pub context: String,
    pub message: String,
}

/// The text printed for a record: its context and message, each context
/// element followed by `": "`.
pub open spec fn record_text(context: Seq<char>, message: Seq<char>) -> Seq<char> {
    (context + colon_space() + message).skip(2)
}

impl LogRecord {
    /// The text to print for this record, without the level.
    pub fn render(&self) -> (r: String)
        requires
            context_ok(self.context@),
        ensures
            r@ == record_text(self.context@, self.message@),
    {
        let mut v = chars_of(self.context.as_str());
        v.push(':');
        v.push(' ');
        let m = chars_of(self.message.as_str());
        push_all(&mut v, &m);
        let ghost full = v@;
        let mut out: Vec<char> = Vec::new();
        let mut i: usize = 2;
        while i < v.len()
            invariant
                2 <= i <= v@.len(),
                v@ == full,
                out@ == full.subrange(2, i as int),
            decreases v.len() - i,
        {
            out.push(v[i]);
            i = i + 1;
        }
        assert(out@ =~= full.skip(2));
        assert(full =~= self.context@ + colon_space() + self.message@);
        string_of(&out)
    }
}

/// Makes log records that carry a context, such as the repository or the
/// commit being worked on. Bad data in a history that cannot change is
/// reported through it as warnings.
pub struct Logger {
    context: String,
}

impl View for Logger {
    type V = Seq<char>;

    closed spec fn view(&self) -> Seq<char> {
        self.context@
    }
}

impl Logger {
    #[verifier::type_invariant]
    spec fn well_formed(self) -> bool {
        context_ok(self.context@)
    }

    /// A logger without context.
    pub fn new() -> (r: Self)
        ensures
            r@.len() == 0,
    {
        Logger { context: String::new() }
    }

    /// A logger whose context is that of this one followed by `context`.
    pub fn with_context(&self, context: &str) -> (r: Self)
        ensures
            r@ == self@ + colon_space() + context@,
    {
        proof {
            use_type_invariant(self);
        }
        let mut v = chars_of(self.context.as_str());
        v.push(':');
        v.push(' ');
        let c = chars_of(context);
        push_all(&mut v, &c);
        assert(v@ =~= self@ + colon_space() + context@);
        assert(context_ok(v@));
        Logger { context: string_of(&v) }
    }

    /// The record of `msg` at `level` in the context of this logger.
    pub fn log(&self, level: LogLevel, msg: String) -> (r: LogRecord)
        ensures
            r.level == level,
            r.context@ == self@,
            r.message@ == msg@,
            context_ok(r.context@),
    {
        proof {
            use_type_invariant(self);
        }
        LogRecord { level, context: self.context.clone(), message: msg }
    }

    pub fn error(&self, msg: String) -> (r: LogRecord)
        ensures
            r.level == LogLevel::Error,
            r.context@ == self@,
            r.message@ == msg@,
            context_ok(r.context@),
    {
        self.log(LogLevel::Error, msg)
    }

    pub fn warning(&self, msg: String) -> (r: LogRecord)
        ensures
            r.level == LogLevel::Warning,
            r.context@ == self@,
            r.message@ == msg@,
            context_ok(r.context@),
    {
        self.log(LogLevel::Warning, msg)
    }

    pub fn info(&self, msg: String) -> (r: LogRecord)
        ensures
            r.level == LogLevel::Info,
            r.context@ == self@,
            r.message@ == msg@,
            context_ok(r.context@),
    {
        self.log(LogLevel::Info, msg)
    }

    pub fn trace(&self, msg: String) -> (r: LogRecord)
        ensures
            r.level == LogLevel::Trace,
            r.context@ == self@,
            r.message@ == msg@,
            context_ok(r.context@),
    {
        self.log(LogLevel::Trace, msg)
    }
}

/// Collects the records printed, as level and text.
pub struct LogAccumulator {
    pub records: Vec<(LogLevel, String)>,
}

impl LogAccumulator {
    pub fn new() -> (r: Self)
        ensures
            r.records@.len() == 0,
    {
        LogAccumulator { records: Vec::new() }
    }

    /// Adds the printed form of a record.
    pub fn receive(&mut self, record: &LogRecord)
        requires
            context_ok(record.context@),
        ensures
            final(self).records@.len() == old(self).records@.len() + 1,
            forall|i: int|
                0 <= i < old(self).records@.len() ==> final(self).records@[i] == old(
                    self,
                ).records@[i],
            final(self).records@.last().0 == record.level,
            final(self).records@.last().1@ == record_text(record.context@, record.message@),
    {
        let text = record.render();
        self.records.push((record.level, text));
    }
}

/// What to do once an error has been reported.
#[derive(Clone, Copy, Debug, PartialEq, Eq)]
pub enum ErrorMode {
    /// Print errors when they arise but continue processing.
    KeepGoing,
    /// Stop at the first error, which is printed once all work has stopped.
    FailFast,
}

impl ErrorMode {
    pub fn from_keep_going_flag(keep_going: bool) -> (r: Self)
        ensures
            r == (if keep_going {
                ErrorMode::KeepGoing
            } else {
                ErrorMode::FailFast
            }),
    {
        if keep_going {
            ErrorMode::KeepGoing
        } else {
            ErrorMode::FailFast
        }
    }
}

/// An error, or the notice that the work was interrupted because of an error
/// elsewhere.
pub enum InterruptedError<E> {
    Normal(E),
    Interrupted,
}

impl<E> InterruptedError<E> {
    /// The error, unless the work was interrupted.
    pub fn get_normal(self) -> (r: Result<E, InterruptedError<E>>)
        ensures
            match self {
                InterruptedError::Normal(e) => r == Ok::<E, InterruptedError<E>>(e),
                InterruptedError::Interrupted => r matches Err(InterruptedError::Interrupted),
            },
    {
        match self {
            InterruptedError::Normal(err) => Ok(err),
            InterruptedError::Interrupted => Err(InterruptedError::Interrupted),
        }
    }
}

/// The message of the error returned once `n` errors have been reported.
pub open spec fn errors_reported_text(n: nat) -> Seq<char> {
    if n == 1 {
        seq!['1', ' ', 'e', 'r', 'r', 'o', 'r', ' ', 'r', 'e', 'p', 'o', 'r', 't', 'e', 'd']
    } else {
        decimal_text(n) + seq![' ', 'e', 'r', 'r', 'o', 'r', 's', ' ', 'r', 'e', 'p', 'o', 'r', 't', 'e', 'd']
    }
}

/// Counts the errors reported and decides, by its mode, whether work goes
/// on.
pub struct ErrorObserver {
    /// Number of errors reported.
    pub counter: usize,
    pub strategy: ErrorMode,
}

impl ErrorObserver {
    pub fn new(strategy: ErrorMode) -> (r: Self)
        ensures
            r.counter == 0,
            r.strategy == strategy,
    {
        ErrorObserver { counter: 0, strategy }
    }

    /// Whether the mode is `FailFast` and an error has been reported.
    pub fn should_interrupt(&self) -> (r: bool)
        ensures
            r == (self.strategy == ErrorMode::FailFast && self.counter > 0),
    {
        match self.strategy {
            ErrorMode::KeepGoing => false,
            ErrorMode::FailFast => self.has_got_errors(),
        }
    }

    /// Whether at least one error has been reported.
    pub fn has_got_errors(&self) -> (r: bool)
        ensures
            r == (self.counter > 0),
    {
        self.counter > 0
    }

    /// `default`, or an error saying how many errors were reported.
    pub fn get_result<T>(&self, default: T) -> (r: Result<T, String>)
        ensures
            self.counter == 0 ==> r == Ok::<T, String>(default),
            self.counter > 0 ==> (r matches Err(m) && m@ == errors_reported_text(
                self.counter as nat,
            )),
    {
        if self.counter == 0 {
            return Ok(default);
        }
        if self.counter == 1 {
            proof {
                reveal_strlit("1 error reported");
            }
            return Err(String::from_str("1 error reported"));
        }
        let mut v = usize_to_decimal(self.counter);
        let tail = chars_of(" errors reported");
        proof {
            reveal_strlit(" errors reported");
        }
        push_all(&mut v, &tail);
        assert(v@ =~= errors_reported_text(self.counter as nat));
        Err(string_of(&v))
    }

    /// Counts an error; the record to print it, if there is one.
    pub fn consume<T>(&mut self, logger: &Logger, result: Result<T, String>) -> (r: (
        Option<T>,
        Option<LogRecord>,
    ))
        ensures
            final(self).strategy == old(self).strategy,
            match result {
                Ok(v) => r.0 == Some(v) && r.1 is None && final(self).counter == old(self).counter,
                Err(m) => r.0 is None && final(self).counter == old(self).counter.wrapping_add(1)
                    && (r.1 matches Some(rec) && rec.level == LogLevel::Error && rec.context@
                    == logger@ && rec.message@ == m@),
            },
    {
        match result {
            Ok(v) => (Some(v), None),
            Err(m) => {
                self.counter = self.counter.wrapping_add(1);
                (None, Some(logger.error(m)))
            },
        }
    }

    /// Counts an error unless the work was interrupted; the record to print
    /// it, if there is one.
    pub fn consume_interrupted(
        &mut self,
        logger: &Logger,
        result: Result<(), InterruptedError<String>>,
    ) -> (r: Option<LogRecord>)
        ensures
            final(self).strategy == old(self).strategy,
            match result {
                Err(InterruptedError::Normal(m)) => final(self).counter == old(self).counter.wrapping_add(1) && (r matches Some(rec) && rec.level == LogLevel::Error
                    && rec.context@ == logger@ && rec.message@ == m@),
                _ => r is None && final(self).counter == old(self).counter,
            },
    {
        match result {
            Err(InterruptedError::Normal(m)) => {
                self.counter = self.counter.wrapping_add(1);
                Some(logger.error(m))
            },
            _ => None,
        }
    }

    /// Counts an error; in keep-going mode gives the record to print it and
    /// `Ok`, in fail-fast mode the error itself.
    pub fn maybe_consume(&mut self, logger: &Logger, result: Result<(), String>) -> (r: (
        Result<(), String>,
        Option<LogRecord>,
    ))
        ensures
            final(self).strategy == old(self).strategy,
            match result {
                Ok(_) => r.0 is Ok && r.1 is None && final(self).counter == old(self).counter,
                Err(m) => final(self).counter == old(self).counter.wrapping_add(1) && match old(
                    self,
                ).strategy {
                    ErrorMode::KeepGoing => r.0 is Ok && (r.1 matches Some(rec) && rec.level
                        == LogLevel::Error && rec.context@ == logger@ && rec.message@ == m@),
                    ErrorMode::FailFast => r.0 == Err::<(), String>(m) && r.1 is None,
                },
            },
    {
        match result {
            Ok(_) => (Ok(()), None),
            Err(m) => {
                self.counter = self.counter.wrapping_add(1);
                match self.strategy {
                    ErrorMode::KeepGoing => (Ok(()), Some(logger.error(m))),
                    ErrorMode::FailFast => (Err(m), None),
                }
            },
        }
    }
}

} // verus!
