//! Flush strategies, their textual form, and the coordinator that decides
//! when a flush runs.
//!
//! Intervals and timestamps are milliseconds; the caller supplies the current
//! reading of its monotonic clock, so every decision here is a pure function
//! of state and time.

use vstd::prelude::*;
use vstd::string::StrSliceExecFns;
use vstd::string::StringExecFns;

use crate::strutil::{spec_starts_with, str_eq, str_starts_with};

verus! {

/// Flushes completing within this many milliseconds of the previous one are
/// suppressed.
pub const DEDUP_WINDOW_MS: u64 = 100;

/// The `Default` strategy flushes at an invocation boundary only when at
/// least this much time has passed since the last flush.
pub const DEFAULT_ADAPTIVE_THRESHOLD_MS: u64 = 60000;

/// When the relay exports: at invocation boundaries, periodically, both, or
/// continuously in the background.
#[derive(Debug, Clone, Copy, PartialEq, Eq, Structural)]
pub enum FlushStrategy {
    Default,
    End,
    EndPeriodically { interval_ms: u64 },
    Periodically { interval_ms: u64 },
    Continuously { interval_ms: u64 },
}

/// Why a strategy string was rejected.
#[derive(Debug)]
pub enum FlushStrategyError {
    UnknownStrategy(String),
    InvalidParameter { strategy: String, detail: String },
}

pub open spec fn is_digit(c: char) -> bool {
    48 <= c as int && c as int <= 57
}

pub open spec fn digit_val(c: char) -> nat {
    if is_digit(c) {
        (c as int - 48) as nat
    } else {
        0
    }
}

pub open spec fn all_digits(s: Seq<char>) -> bool {
    forall|i: int| 0 <= i < s.len() ==> is_digit(#[trigger] s[i])
}

/// Value of a decimal digit string, most significant digit first.
pub open spec fn dec_val(s: Seq<char>) -> nat
    decreases s.len(),
{
    if s.len() == 0 {
        0
    } else {
        dec_val(s.drop_last()) * 10 + digit_val(s.last())
    }
}

/// The digit region of a parameter: an optional leading `+` is skipped.
pub open spec fn digits_of(s: Seq<char>) -> Seq<char> {
    if s.len() > 0 && s[0] == '+' {
        s.drop_first()
    } else {
        s
    }
}

/// A string `u64` accepts: an optional `+`, then at least one digit, with a
/// value that fits in 64 bits.
pub open spec fn spec_u64_ok(s: Seq<char>) -> bool {
    let d = digits_of(s);
    d.len() > 0 && all_digits(d) && dec_val(d) <= u64::MAX
}

/// A well-formed interval parameter: at least one digit, nothing else, a
/// value that fits in 64 bits and is not zero.
pub open spec fn spec_ms_param_ok(p: Seq<char>) -> bool {
    spec_u64_ok(p) && dec_val(digits_of(p)) >= 1
}

/// The text after `<strategy>,`, if the string has that shape.
pub open spec fn spec_param(strategy: Seq<char>, raw: Seq<char>) -> Option<Seq<char>> {
    if spec_starts_with(raw, strategy) && raw.len() > strategy.len() && raw[strategy.len() as int]
        == ',' {
        Some(raw.subrange(strategy.len() as int + 1, raw.len() as int))
    } else {
        None
    }
}

/// What parsing a strategy string yields: a strategy, an unknown name, or a
/// known name with a bad parameter.
pub ghost enum ParsedStrategy {
    Strategy(FlushStrategy),
    Unknown,
    Invalid(Seq<char>),
}

/// The grammar of strategy strings, one branch per recognized form.
pub open spec fn spec_parse(s: Seq<char>) -> ParsedStrategy {
    if s == ""@ || s == "default"@ {
        ParsedStrategy::Strategy(FlushStrategy::Default)
    } else if s == "end"@ {
        ParsedStrategy::Strategy(FlushStrategy::End)
    } else if spec_starts_with(s, "end,"@) {
        spec_parse_param("end"@, s, 0)
    } else if spec_starts_with(s, "periodically,"@) || s == "periodically"@ {
        spec_parse_param("periodically"@, s, 1)
    } else if spec_starts_with(s, "continuously,"@) || s == "continuously"@ {
        spec_parse_param("continuously"@, s, 2)
    } else {
        ParsedStrategy::Unknown
    }
}

/// The parameter-bearing forms; `which` picks the variant.
pub open spec fn spec_parse_param(strategy: Seq<char>, s: Seq<char>, which: int) -> ParsedStrategy {
    match spec_param(strategy, s) {
        Some(p) => if spec_ms_param_ok(p) {
            let ms = dec_val(digits_of(p)) as u64;
            if which == 0 {
                ParsedStrategy::Strategy(FlushStrategy::EndPeriodically { interval_ms: ms })
            } else if which == 1 {
                ParsedStrategy::Strategy(FlushStrategy::Periodically { interval_ms: ms })
            } else {
                ParsedStrategy::Strategy(FlushStrategy::Continuously { interval_ms: ms })
            }
        } else {
            ParsedStrategy::Invalid(strategy)
        },
        None => ParsedStrategy::Invalid(strategy),
    }
}

/// Prefixes of a digit string never exceed its value.
proof fn lemma_dec_val_prefix_le(s: Seq<char>, j: int)
    requires
        0 <= j <= s.len(),
    ensures
        dec_val(s.subrange(0, j)) <= dec_val(s),
    decreases s.len() - j,
{
    if j == s.len() {
        assert(s.subrange(0, j) =~= s);
    } else {
        lemma_dec_val_prefix_le(s, j + 1);
        let a = s.subrange(0, j);
        let b = s.subrange(0, j + 1);
        assert(b.drop_last() =~= a);
        assert(dec_val(b) == dec_val(a) * 10 + digit_val(b.last()));
        assert(dec_val(a) <= dec_val(a) * 10);
    }
}

/// Parse an unsigned decimal with an optional leading `+`, exactly the
/// strings `u64` itself accepts.
pub fn parse_u64_chars(s: &str) -> (r: Option<u64>)
    ensures
        match r {
            Some(v) => spec_u64_ok(s@) && v as nat == dec_val(digits_of(s@)),
            None => !spec_u64_ok(s@),
        },
{
    let len = s.unicode_len();
    let start: usize = if len > 0 && s.get_char(0) == '+' {
        1
    } else {
        0
    };
    proof {
        assert(digits_of(s@) =~= s@.subrange(start as int, len as int));
    }
    if start == len {
        return None;
    }
    let ghost d = s@.subrange(start as int, len as int);
    let mut val: u64 = 0;
    let mut i: usize = start;
    while i < len
        invariant
            len == s@.len(),
            start <= i <= len,
            start < len,
            d == s@.subrange(start as int, len as int),
            d == digits_of(s@),
            all_digits(s@.subrange(start as int, i as int)),
            val as nat == dec_val(s@.subrange(start as int, i as int)),
        decreases len - i,
    {
        let c = s.get_char(i);
        let cu = c as u32;
        if cu < 48 || cu > 57 {
            proof {
                assert(d[i - start] == c);
                assert(!is_digit(c));
                assert(!all_digits(d));
            }
            return None;
        }
        let dv = (cu - 48) as u64;
        proof {
            assert(is_digit(c));
            assert(dv as nat == digit_val(c));
        }
        if val > (u64::MAX - dv) / 10 {
            proof {
                let pre = s@.subrange(start as int, i as int);
                let pre1 = s@.subrange(start as int, i as int + 1);
                assert(pre1.drop_last() =~= pre);
                assert(pre1.last() == c);
                assert(dec_val(pre1) == dec_val(pre) * 10 + digit_val(c));
                assert(dec_val(pre) * 10 + digit_val(c) > u64::MAX);
                assert(pre1 =~= d.subrange(0, i + 1 - start));
                lemma_dec_val_prefix_le(d, i + 1 - start);
            }
            return None;
        }
        proof {
            let pre = s@.subrange(start as int, i as int);
            let pre1 = s@.subrange(start as int, i as int + 1);
            assert(pre1.drop_last() =~= pre);
            assert(pre1.last() == c);
        }
        val = val * 10 + dv;
        i = i + 1;
    }
    proof {
        assert(s@.subrange(start as int, i as int) =~= d);
    }
    Some(val)
}

/// Parse the `,<ms>` parameter of `<strategy>,<ms>`, validating shape, range
/// and positivity.
pub fn parse_ms_param(strategy: &str, raw: &str) -> (r: Result<u64, FlushStrategyError>)
    ensures
        match r {
            Ok(ms) => {
                &&& spec_param(strategy@, raw@) is Some
                &&& spec_ms_param_ok(spec_param(strategy@, raw@)->Some_0)
                &&& ms as nat == dec_val(digits_of(spec_param(strategy@, raw@)->Some_0))
            },
            Err(e) => {
                &&& !match spec_param(strategy@, raw@) {
                    Some(p) => spec_ms_param_ok(p),
                    None => false,
                }
                &&& (e matches FlushStrategyError::InvalidParameter { strategy: st, .. } && st@
                    == strategy@)
            },
        },
{
    let sl = strategy.unicode_len();
    let rl = raw.unicode_len();
    let shape_ok = str_starts_with(raw, strategy) && rl > sl && raw.get_char(sl) == ',';
    if !shape_ok {
        return Err(FlushStrategyError::InvalidParameter {
            strategy: strategy.to_owned(),
            detail: "missing comma-separated millisecond parameter".to_owned(),
        });
    }
    let param = raw.substring_char(sl + 1, rl);
    proof {
        assert(param@ == spec_param(strategy@, raw@)->Some_0);
    }
    match parse_u64_chars(param) {
        Some(ms) => {
            if ms == 0 {
                Err(FlushStrategyError::InvalidParameter {
                    strategy: strategy.to_owned(),
                    detail: "interval must be greater than 0".to_owned(),
                })
            } else {
                Ok(ms)
            }
        },
        None => Err(FlushStrategyError::InvalidParameter {
            strategy: strategy.to_owned(),
            detail: String::from_str("\"").concat(param).concat(
                "\" is not a valid positive integer",
            ),
        }),
    }
}

impl FlushStrategy {
    /// Parse the textual form; see [`spec_parse`] for the grammar.
    pub fn parse(s: &str) -> (r: Result<FlushStrategy, FlushStrategyError>)
        ensures
            match r {
                Ok(st) => spec_parse(s@) == ParsedStrategy::Strategy(st),
                Err(e) => match spec_parse(s@) {
                    ParsedStrategy::Strategy(_) => false,
                    ParsedStrategy::Unknown => e matches FlushStrategyError::UnknownStrategy(u)
                        && u@ == s@,
                    ParsedStrategy::Invalid(st) => e matches FlushStrategyError::InvalidParameter {
                        strategy: f,
                        ..
                    } && f@ == st,
                },
            },
    {
        if str_eq(s, "") || str_eq(s, "default") {
            Ok(FlushStrategy::Default)
        } else if str_eq(s, "end") {
            Ok(FlushStrategy::End)
        } else if str_starts_with(s, "end,") {
            match parse_ms_param("end", s) {
                Ok(ms) => Ok(FlushStrategy::EndPeriodically { interval_ms: ms }),
                Err(e) => Err(e),
            }
        } else if str_starts_with(s, "periodically,") || str_eq(s, "periodically") {
            match parse_ms_param("periodically", s) {
                Ok(ms) => Ok(FlushStrategy::Periodically { interval_ms: ms }),
                Err(e) => Err(e),
            }
        } else if str_starts_with(s, "continuously,") || str_eq(s, "continuously") {
            match parse_ms_param("continuously", s) {
                Ok(ms) => Ok(FlushStrategy::Continuously { interval_ms: ms }),
                Err(e) => Err(e),
            }
        } else {
            Err(FlushStrategyError::UnknownStrategy(s.to_owned()))
        }
    }
}

/// The decimal digits of `n`, most significant first.
pub open spec fn dec_chars(n: nat) -> Seq<char>
    decreases n,
{
    if n < 10 {
        seq![digit_char(n)]
    } else {
        dec_chars(n / 10).push(digit_char(n % 10))
    }
}

pub open spec fn digit_char(d: nat) -> char {
    if d == 0 {
        '0'
    } else if d == 1 {
        '1'
    } else if d == 2 {
        '2'
    } else if d == 3 {
        '3'
    } else if d == 4 {
        '4'
    } else if d == 5 {
        '5'
    } else if d == 6 {
        '6'
    } else if d == 7 {
        '7'
    } else if d == 8 {
        '8'
    } else {
        '9'
    }
}

/// The digits of `n` denote `n`, and nothing but digits appears.
pub proof fn lemma_dec_chars_val(n: nat)
    ensures
        dec_chars(n).len() >= 1,
        all_digits(dec_chars(n)),
        dec_val(dec_chars(n)) == n,
    decreases n,
{
    if n < 10 {
        assert(dec_chars(n) =~= seq![digit_char(n)]);
        assert(dec_chars(n).drop_last() =~= Seq::<char>::empty());
        assert(dec_val(Seq::<char>::empty()) == 0);
        assert(dec_chars(n).last() == digit_char(n));
        assert(digit_val(digit_char(n)) == n);
        assert(dec_val(dec_chars(n)) == dec_val(dec_chars(n).drop_last()) * 10 + digit_val(
            dec_chars(n).last(),
        ));
    } else {
        lemma_dec_chars_val(n / 10);
        let w = dec_chars(n / 10);
        let c = digit_char(n % 10);
        assert(w.push(c).drop_last() =~= w);
        assert(w.push(c).last() == c);
        assert(digit_val(c) == n % 10);
        assert(forall|i: int|
            0 <= i < w.len() ==> #[trigger] w.push(c)[i] == w[i]);
        assert(all_digits(w.push(c)));
        assert(dec_val(w.push(c)) == dec_val(w) * 10 + digit_val(c));
        vstd::arithmetic::div_mod::lemma_fundamental_div_mod(n as int, 10);
        assert(dec_val(w) * 10 + digit_val(c) == (n / 10) * 10 + n % 10);
    }
}

/// Render `v` in decimal.
pub fn u64_to_dec(v: u64) -> (r: String)
    ensures
        r@ == dec_chars(v as nat),
    decreases v,
{
    let low = match v % 10 {
        0 => "0",
        1 => "1",
        2 => "2",
        3 => "3",
        4 => "4",
        5 => "5",
        6 => "6",
        7 => "7",
        8 => "8",
        _ => "9",
    };
    proof {
        reveal_strlit("0");
        reveal_strlit("1");
        reveal_strlit("2");
        reveal_strlit("3");
        reveal_strlit("4");
        reveal_strlit("5");
        reveal_strlit("6");
        reveal_strlit("7");
        reveal_strlit("8");
        reveal_strlit("9");
    }
    if v < 10 {
        proof {
            assert(low@ =~= seq![digit_char(v as nat)]);
        }
        low.to_owned()
    } else {
        let mut s = u64_to_dec(v / 10);
        s.append(low);
        proof {
            assert(dec_chars((v / 10) as nat).push(digit_char((v % 10) as nat)) =~= dec_chars(
                (v / 10) as nat,
            ) + low@);
        }
        s
    }
}

/// The textual form of a strategy; the inverse of [`spec_parse`] on
/// strategies with positive intervals.
pub open spec fn spec_display(st: FlushStrategy) -> Seq<char> {
    match st {
        FlushStrategy::Default => "default"@,
        FlushStrategy::End => "end"@,
        FlushStrategy::EndPeriodically { interval_ms } => "end,"@ + dec_chars(interval_ms as nat),
        FlushStrategy::Periodically { interval_ms } => "periodically,"@ + dec_chars(
            interval_ms as nat,
        ),
        FlushStrategy::Continuously { interval_ms } => "continuously,"@ + dec_chars(
            interval_ms as nat,
        ),
    }
}

impl FlushStrategy {
    /// The textual form: `parse` accepts it and gives the strategy back.
    pub fn to_string(&self) -> (r: String)
        ensures
            r@ == spec_display(*self),
    {
        match self {
            FlushStrategy::Default => "default".to_owned(),
            FlushStrategy::End => "end".to_owned(),
            FlushStrategy::EndPeriodically { interval_ms } => "end,".to_owned().concat(
                u64_to_dec(*interval_ms).as_str(),
            ),
            FlushStrategy::Periodically { interval_ms } => "periodically,".to_owned().concat(
                u64_to_dec(*interval_ms).as_str(),
            ),
            FlushStrategy::Continuously { interval_ms } => "continuously,".to_owned().concat(
                u64_to_dec(*interval_ms).as_str(),
            ),
        }
    }
}

/// Displaying a strategy and parsing the result gives the strategy back, for
/// every strategy whose interval is positive. (An interval of zero is not
/// representable in text: `parse` rejects `0` as a parameter.)
pub proof fn lemma_display_parse_round_trip(st: FlushStrategy)
    requires
        match st {
            FlushStrategy::EndPeriodically { interval_ms } => interval_ms >= 1,
            FlushStrategy::Periodically { interval_ms } => interval_ms >= 1,
            FlushStrategy::Continuously { interval_ms } => interval_ms >= 1,
            _ => true,
        },
    ensures
        spec_parse(spec_display(st)) == ParsedStrategy::Strategy(st),
{
    reveal_strlit("");
    reveal_strlit("default");
    reveal_strlit("end");
    reveal_strlit("end,");
    reveal_strlit("periodically");
    reveal_strlit("periodically,");
    reveal_strlit("continuously");
    reveal_strlit("continuously,");
    match st {
        FlushStrategy::Default => {
            assert(spec_display(st) == "default"@);
            assert("default"@.len() == 7);
            assert("default"@ != ""@);
        },
        FlushStrategy::End => {
            assert("end"@ != ""@);
            assert("end"@ != "default"@);
        },
        FlushStrategy::EndPeriodically { interval_ms } => {
            lemma_dec_chars_val(interval_ms as nat);
            let d = dec_chars(interval_ms as nat);
            let s = "end,"@ + d;
            assert(s.len() >= 5);
            assert(s != ""@);
            assert(s[0] == 'e');
            assert(s != "default"@);
            assert(s != "end"@);
            assert(s.subrange(0, 4) =~= "end,"@);
            assert(spec_starts_with(s, "end,"@));
            assert(s.subrange(0, 3) =~= "end"@);
            assert(s[3] == ',');
            assert(spec_param("end"@, s) is Some);
            let p = spec_param("end"@, s)->Some_0;
            assert(p =~= d);
            assert(is_digit(d[0]));
            assert(digits_of(p) == p);
            assert(spec_ms_param_ok(p));
        },
        FlushStrategy::Periodically { interval_ms } => {
            lemma_dec_chars_val(interval_ms as nat);
            let d = dec_chars(interval_ms as nat);
            let s = "periodically,"@ + d;
            assert(s.len() >= 14);
            assert(s != ""@);
            assert(s[0] == 'p');
            assert(s != "default"@);
            assert(s != "end"@);
            assert(!spec_starts_with(s, "end,"@)) by {
                if spec_starts_with(s, "end,"@) {
                    assert(s.subrange(0, 4)[0] == "end,"@[0]);
                }
            }
            assert(s.subrange(0, 13) =~= "periodically,"@);
            assert(spec_starts_with(s, "periodically,"@));
            assert(s.subrange(0, 12) =~= "periodically"@);
            assert(s[12] == ',');
            assert(spec_param("periodically"@, s) is Some);
            let p = spec_param("periodically"@, s)->Some_0;
            assert(p =~= d);
            assert(is_digit(d[0]));
            assert(digits_of(p) == p);
            assert(spec_ms_param_ok(p));
        },
        FlushStrategy::Continuously { interval_ms } => {
            lemma_dec_chars_val(interval_ms as nat);
            let d = dec_chars(interval_ms as nat);
            let s = "continuously,"@ + d;
            assert(s.len() >= 14);
            assert(s != ""@);
            assert(s[0] == 'c');
            assert(s != "default"@);
            assert(s != "end"@);
            assert(!spec_starts_with(s, "end,"@)) by {
                if spec_starts_with(s, "end,"@) {
                    assert(s.subrange(0, 4)[0] == "end,"@[0]);
                }
            }
            assert(!spec_starts_with(s, "periodically,"@)) by {
                if spec_starts_with(s, "periodically,"@) {
                    assert(s.subrange(0, 13)[0] == "periodically,"@[0]);
                }
            }
            assert(s != "periodically"@);
            assert(s.subrange(0, 13) =~= "continuously,"@);
            assert(spec_starts_with(s, "continuously,"@));
            assert(s.subrange(0, 12) =~= "continuously"@);
            assert(s[12] == ',');
            assert(spec_param("continuously"@, s) is Some);
            let p = spec_param("continuously"@, s)->Some_0;
            assert(p =~= d);
            assert(is_digit(d[0]));
            assert(digits_of(p) == p);
            assert(spec_ms_param_ok(p));
        },
    }
}

/// Whether a timer-driven flush blocks the event loop or runs in the
/// background.
#[derive(Debug, Clone, Copy, PartialEq, Eq, Structural)]
pub enum TimerMode {
    Sync,
    Background,
}

/// Milliseconds passed from `t` to `now` on a monotonic clock; a reading
/// older than `t` counts as no time passed.
pub open spec fn spec_elapsed(t: u64, now: u64) -> nat {
    if now >= t {
        (now - t) as nat
    } else {
        0
    }
}

/// The pure state machine that decides when a flush runs: a strategy and the
/// time of the last completed flush. Callers pass in the current reading of
/// their monotonic clock in milliseconds.
pub struct FlushCoordinator {
    strategy: FlushStrategy,
    last_flush_ms: Option<u64>,
}

impl FlushCoordinator {
    pub closed spec fn strategy(self) -> FlushStrategy {
        self.strategy
    }

    pub closed spec fn last_flush(self) -> Option<u64> {
        self.last_flush_ms
    }

    /// A flush completed less than the dedup window ago.
    pub open spec fn spec_within_dedup_window(self, now: u64) -> bool {
        match self.last_flush() {
            Some(t) => spec_elapsed(t, now) < DEDUP_WINDOW_MS,
            None => false,
        }
    }

    /// At least `bound` ms passed since the last flush, or none ever ran.
    pub open spec fn spec_elapsed_at_least(self, now: u64, bound: u64) -> bool {
        match self.last_flush() {
            Some(t) => spec_elapsed(t, now) >= bound,
            None => true,
        }
    }

    /// Whether to flush at an invocation boundary.
    pub open spec fn spec_should_flush_at_boundary(self, now: u64) -> bool {
        !self.spec_within_dedup_window(now) && match self.strategy() {
            FlushStrategy::Default => self.spec_elapsed_at_least(
                now,
                DEFAULT_ADAPTIVE_THRESHOLD_MS,
            ),
            FlushStrategy::End => true,
            FlushStrategy::EndPeriodically { .. } => true,
            FlushStrategy::Periodically { interval_ms } => self.spec_elapsed_at_least(
                now,
                interval_ms,
            ),
            FlushStrategy::Continuously { .. } => false,
        }
    }

    /// Whether to flush on a timer tick.
    pub open spec fn spec_should_flush_on_timer(self, now: u64) -> bool {
        !self.spec_within_dedup_window(now) && !(self.strategy() is End)
    }

    pub fn new(strategy: FlushStrategy) -> (r: Self)
        ensures
            r.strategy() == strategy,
            r.last_flush() is None,
    {
        FlushCoordinator { strategy, last_flush_ms: None }
    }

    /// The period of the flush timer, or `None` when the strategy has no
    /// timer.
    pub fn timer_interval_ms(&self) -> (r: Option<u64>)
        ensures
            r == match self.strategy() {
                FlushStrategy::End => None::<u64>,
                FlushStrategy::Default => Some(DEFAULT_ADAPTIVE_THRESHOLD_MS),
                FlushStrategy::EndPeriodically { interval_ms } => Some(interval_ms),
                FlushStrategy::Periodically { interval_ms } => Some(interval_ms),
                FlushStrategy::Continuously { interval_ms } => Some(interval_ms),
            },
    {
        match self.strategy {
            FlushStrategy::End => None,
            FlushStrategy::Default => Some(DEFAULT_ADAPTIVE_THRESHOLD_MS),
            FlushStrategy::EndPeriodically { interval_ms } => Some(interval_ms),
            FlushStrategy::Periodically { interval_ms } => Some(interval_ms),
            FlushStrategy::Continuously { interval_ms } => Some(interval_ms),
        }
    }

    fn within_dedup_window(&self, now_ms: u64) -> (r: bool)
        ensures
            r == self.spec_within_dedup_window(now_ms),
    {
        match self.last_flush_ms {
            Some(t) => {
                let elapsed = if now_ms >= t {
                    now_ms - t
                } else {
                    0
                };
                elapsed < DEDUP_WINDOW_MS
            },
            None => false,
        }
    }

    fn elapsed_at_least(&self, now_ms: u64, bound: u64) -> (r: bool)
        ensures
            r == self.spec_elapsed_at_least(now_ms, bound),
    {
        match self.last_flush_ms {
            Some(t) => {
                let elapsed = if now_ms >= t {
                    now_ms - t
                } else {
                    0
                };
                elapsed >= bound
            },
            None => true,
        }
    }

    /// Whether to flush at an INVOKE boundary, at time `now_ms`.
    pub fn should_flush_at_boundary(&self, now_ms: u64) -> (r: bool)
        ensures
            r == self.spec_should_flush_at_boundary(now_ms),
    {
        if self.within_dedup_window(now_ms) {
            return false;
        }
        match self.strategy {
            FlushStrategy::Default => self.elapsed_at_least(now_ms, DEFAULT_ADAPTIVE_THRESHOLD_MS),
            FlushStrategy::End => true,
            FlushStrategy::EndPeriodically { .. } => true,
            FlushStrategy::Periodically { interval_ms } => self.elapsed_at_least(
                now_ms,
                interval_ms,
            ),
            FlushStrategy::Continuously { .. } => false,
        }
    }

    /// Whether to flush on a timer tick, at time `now_ms`.
    pub fn should_flush_on_timer(&self, now_ms: u64) -> (r: bool)
        ensures
            r == self.spec_should_flush_on_timer(now_ms),
    {
        if self.within_dedup_window(now_ms) {
            return false;
        }
        match self.strategy {
            FlushStrategy::End => false,
            _ => true,
        }
    }

    /// The timer mode for this strategy. `End` has no timer, so the question
    /// does not arise for it.
    pub fn timer_mode(&self) -> (r: TimerMode)
        requires
            !(self.strategy() is End),
        ensures
            r == match self.strategy() {
                FlushStrategy::EndPeriodically { .. } => TimerMode::Sync,
                FlushStrategy::Periodically { .. } => TimerMode::Sync,
                _ => TimerMode::Background,
            },
    {
        match self.strategy {
            FlushStrategy::EndPeriodically { .. } => TimerMode::Sync,
            FlushStrategy::Periodically { .. } => TimerMode::Sync,
            _ => TimerMode::Background,
        }
    }

    /// Record that a flush just completed, at time `now_ms`. The caller also
    /// resets its interval timer so the next tick is one full period out.
    pub fn record_flush(&mut self, now_ms: u64)
        ensures
            final(self).strategy() == old(self).strategy(),
            final(self).last_flush() == Some(now_ms),
    {
        self.last_flush_ms = Some(now_ms);
    }
}

/// Inside the dedup window, both the boundary and the timer predicate say no.
pub proof fn lemma_dedup_suppresses_flush(c: FlushCoordinator, now_ms: u64)
    requires
        c.spec_within_dedup_window(now_ms),
    ensures
        !c.spec_should_flush_at_boundary(now_ms),
        !c.spec_should_flush_on_timer(now_ms),
{
}

/// Before any flush has run, the boundary predicate is true for every
/// strategy but `Continuously`.
pub proof fn lemma_first_invocation_boundary(c: FlushCoordinator, now_ms: u64)
    requires
        c.last_flush() is None,
    ensures
        c.spec_should_flush_at_boundary(now_ms) == !(c.strategy() is Continuously),
{
}

impl FlushStrategyError {
    /// The error's text form.
    pub open spec fn spec_message(&self) -> Seq<char> {
        match self {
            FlushStrategyError::UnknownStrategy(s) => "unknown flush strategy: "@ + s@,
            FlushStrategyError::InvalidParameter { strategy, detail } => "flush strategy "@
                + strategy@ + " requires a positive integer parameter: "@ + detail@,
        }
    }

    /// The error rendered as one line of text.
    pub fn to_string(&self) -> (r: String)
        ensures
            r@ == self.spec_message(),
    {
        match self {
            FlushStrategyError::UnknownStrategy(s) => "unknown flush strategy: ".to_owned().concat(
                s.as_str(),
            ),
            FlushStrategyError::InvalidParameter { strategy, detail } => "flush strategy "
                .to_owned().concat(strategy.as_str()).concat(
                " requires a positive integer parameter: ",
            ).concat(detail.as_str()),
        }
    }
}

} // verus!
