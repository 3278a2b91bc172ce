//! The settings of the server, and the rhythm in which the databases are refreshed.
use vstd::prelude::*;

use crate::text;

verus! {

/// The text behind an optional plus sign.
pub open spec fn unsigned_part(s: Seq<char>) -> Seq<char> {
    if s.len() > 0 && s[0] == '+' {
        s.drop_first()
    } else {
        s
    }
}

/// Every character is a decimal digit.
pub open spec fn all_digits(s: Seq<char>) -> bool {
    forall|i: int| 0 <= i < s.len() ==> '0' <= #[trigger] s[i] <= '9'
}

/// The number that decimal digits spell.
pub open spec fn number_of(s: Seq<char>) -> nat
    decreases s.len(),
{
    if s.len() == 0 {
        0
    } else {
        number_of(s.drop_last()) * 10 + (s.last() as nat - '0' as nat) as nat
    }
}

/// The number up to `max` that a text spells: decimal digits, at least one, behind an optional
/// plus sign, and nothing else.
pub open spec fn parsed(s: Seq<char>, max: u64) -> Option<u64> {
    let digits = unsigned_part(s);
    if digits.len() > 0 && all_digits(digits) && number_of(digits) <= max {
        Some(number_of(digits) as u64)
    } else {
        None
    }
}

/// More digits do not make a number smaller.
proof fn lemma_number_grows(s: Seq<char>, n: int)
    requires
        all_digits(s),
        0 <= n <= s.len(),
    ensures
        number_of(s.take(n)) <= number_of(s),
    decreases s.len(),
{
    if n == s.len() {
        assert(s.take(n) =~= s);
    } else {
        let rest = s.drop_last();
        assert(s.take(n) =~= rest.take(n));
        assert forall|i: int| 0 <= i < rest.len() implies '0' <= #[trigger] rest[i] <= '9' by {
            assert(rest[i] == s[i]);
        }
        lemma_number_grows(rest, n);
        assert('0' <= s[s.len() - 1] <= '9');
    }
}

/// Reads a number up to `max`.
pub fn parse_number(s: &str, max: u64) -> (r: Option<u64>)
    ensures
        r == parsed(s@, max),
{
    let chars = text::chars_of(s);
    let from: usize = if chars.len() > 0 && chars[0] == '+' {
        1
    } else {
        0
    };
    let ghost digits = unsigned_part(s@);
    assert(digits =~= chars@.skip(from as int));
    if from == chars.len() {
        return None;
    }
    let mut value: u64 = 0;
    let mut i: usize = from;
    while i < chars.len()
        invariant
            from <= i <= chars@.len(),
            digits == chars@.skip(from as int),
            digits == unsigned_part(s@),
            all_digits(digits.take(i - from)),
            value == number_of(digits.take(i - from)),
            value <= max,
        decreases chars@.len() - i,
    {
        let c = chars[i];
        assert(c == digits[i - from]);
        if c < '0' || c > '9' {
            return None;
        }
        let d: u64 = (c as u32 - '0' as u32) as u64;
        let ghost next = digits.take(i + 1 - from);
        assert(next.drop_last() =~= digits.take(i - from));
        assert(next.last() == c);
        assert(all_digits(next)) by {
            assert forall|k: int| 0 <= k < next.len() implies '0' <= #[trigger] next[k] <= '9' by {
                if k < next.len() - 1 {
                    assert(next[k] == digits.take(i - from)[k]);
                }
            }
        }
        assert(number_of(next) == value * 10 + d);
        if value > max / 10 || d > max - value * 10 {
            proof {
                if all_digits(digits) {
                    lemma_number_grows(digits, i + 1 - from);
                }
            }
            return None;
        }
        value = value * 10 + d;
        i = i + 1;
    }
    assert(digits.take(chars@.len() - from) =~= digits);
    Some(value)
}

/// The settings of the server.
#[derive(Debug, Clone, Copy, PartialEq, Eq, Structural)]
pub struct ServerConfig {
    /// How often the databases are refreshed.
    pub interval_seconds: u64,
    pub max_connections: u32,
    pub min_connections: u32,
    pub acquire_timeout_seconds: u64,
    pub idle_timeout_seconds: u64,
}

/// The setting that is not a number in its range.
#[derive(Debug, Clone, Copy, PartialEq, Eq, Structural)]
pub enum ConfigError {
    Interval,
    MaxConnections,
    MinConnections,
}

/// The value of a setting up to `max`, where the variable is set or not.
pub open spec fn setting(variable: Option<String>, default_value: u64, max: u64) -> Option<u64> {
    match variable {
        Some(s) => parsed(s@, max),
        None => Some(default_value),
    }
}

/// The settings from the variables that are set, or the first of them that is no number in its
/// range.
pub open spec fn configured(
    interval: Option<String>,
    max_connections: Option<String>,
    min_connections: Option<String>,
) -> Result<ServerConfig, ConfigError> {
    match (
        setting(interval, 21600, u64::MAX),
        setting(max_connections, 100, u32::MAX as u64),
        setting(min_connections, 10, u32::MAX as u64),
    ) {
        (None, _, _) => Err(ConfigError::Interval),
        (Some(_), None, _) => Err(ConfigError::MaxConnections),
        (Some(_), Some(_), None) => Err(ConfigError::MinConnections),
        (Some(interval_seconds), Some(most), Some(least)) => Ok(
            ServerConfig {
                interval_seconds,
                max_connections: most as u32,
                min_connections: least as u32,
                acquire_timeout_seconds: 5,
                idle_timeout_seconds: 60,
            },
        ),
    }
}

fn read_setting(variable: &Option<String>, default_value: u64, max: u64) -> (r: Option<u64>)
    ensures
        r == setting(*variable, default_value, max),
{
    match variable {
        Some(s) => parse_number(s.as_str(), max),
        None => Some(default_value),
    }
}

/// The settings from the variables that are set: a refresh every six hours, and 10 to 100
/// connections, unless they say otherwise. The first variable that is no number in its range is
/// the error.
pub fn server_config(
    interval: Option<String>,
    max_connections: Option<String>,
    min_connections: Option<String>,
) -> (r: Result<ServerConfig, ConfigError>)
    ensures
        ({
            let i = setting(interval, 21600, u64::MAX);
            let most = setting(max_connections, 100, u32::MAX as u64);
            let least = setting(min_connections, 10, u32::MAX as u64);
            &&& i is None ==> r == Err::<ServerConfig, ConfigError>(ConfigError::Interval)
            &&& i is Some && most is None ==> r == Err::<ServerConfig, ConfigError>(
                ConfigError::MaxConnections,
            )
            &&& i is Some && most is Some && least is None ==> r == Err::<
                ServerConfig,
                ConfigError,
            >(ConfigError::MinConnections)
            &&& i is Some && most is Some && least is Some ==> r == Ok::<
                ServerConfig,
                ConfigError,
            >(
                ServerConfig {
                    interval_seconds: i->0,
                    max_connections: most->0 as u32,
                    min_connections: least->0 as u32,
                    acquire_timeout_seconds: 5,
                    idle_timeout_seconds: 60,
                },
            )
        }),
        r == configured(interval, max_connections, min_connections),
{
    let limit: u64 = u32::MAX as u64;
    match read_setting(&interval, 21600, u64::MAX) {
        None => Err(ConfigError::Interval),
        Some(interval_seconds) => match read_setting(&max_connections, 100, limit) {
            None => Err(ConfigError::MaxConnections),
            Some(most) => match read_setting(&min_connections, 10, limit) {
                None => Err(ConfigError::MinConnections),
                Some(least) => Ok(
                    ServerConfig {
                        interval_seconds,
                        max_connections: most as u32,
                        min_connections: least as u32,
                        acquire_timeout_seconds: 5,
                        idle_timeout_seconds: 60,
                    },
                ),
            },
        },
    }
}

/// What happened in the loop that keeps the databases fresh.
#[derive(Debug, Clone, Copy, PartialEq, Eq, Structural)]
pub enum RefreshEvent {
    /// It is time for a refresh.
    Tick,
    /// The databases were downloaded.
    Downloaded,
    /// The databases could not be downloaded.
    DownloadFailed,
    /// The checker uses the downloaded databases.
    Updated,
    /// The blocklist was refreshed from the checker.
    Refreshed,
}

/// What the loop that keeps the databases fresh does next.
#[derive(Debug, Clone, Copy, PartialEq, Eq, Structural)]
pub enum RefreshAction {
    Download,
    UpdateChecker,
    RefreshBlocklist,
    AwaitTick,
}

/// What follows an event: a download at each tick, and the checker and then the blocklist are
/// brought up to date if it succeeds.
pub open spec fn action_after(event: RefreshEvent) -> RefreshAction {
    match event {
        RefreshEvent::Tick => RefreshAction::Download,
        RefreshEvent::Downloaded => RefreshAction::UpdateChecker,
        RefreshEvent::DownloadFailed => RefreshAction::AwaitTick,
        RefreshEvent::Updated => RefreshAction::RefreshBlocklist,
        RefreshEvent::Refreshed => RefreshAction::AwaitTick,
    }
}

/// What the loop does after an event.
pub fn next_refresh_action(event: RefreshEvent) -> (r: RefreshAction)
    ensures
        r == action_after(event),
{
    match event {
        RefreshEvent::Tick => RefreshAction::Download,
        RefreshEvent::Downloaded => RefreshAction::UpdateChecker,
        RefreshEvent::DownloadFailed => RefreshAction::AwaitTick,
        RefreshEvent::Updated => RefreshAction::RefreshBlocklist,
        RefreshEvent::Refreshed => RefreshAction::AwaitTick,
    }
}

/// The blocklist is refreshed after the checker was updated and at no other time, the checker is
/// updated after a download that succeeded and at no other time, and a download follows each tick
/// and nothing else.
pub proof fn law_refresh_follows_update(event: RefreshEvent)
    ensures
        action_after(event) == RefreshAction::RefreshBlocklist <==> event == RefreshEvent::Updated,
        action_after(event) == RefreshAction::UpdateChecker <==> event == RefreshEvent::Downloaded,
        action_after(event) == RefreshAction::Download <==> event == RefreshEvent::Tick,
{
}

/// Whether the server may start, by how the migrations of the database went; there is nothing
/// where there is no database.
pub fn migrations_succeeded(migrated: Option<bool>) -> (r: bool)
    ensures
        r == (migrated == Some(true)),
{
    match migrated {
        Some(done) => done,
        None => false,
    }
}

/// The text of a number in decimal is read as that number.
pub proof fn law_decimal_is_parsed(n: u64, max: u64)
    requires
        n <= max,
    ensures
        parsed(crate::number::decimal(n as nat), max) == Some(n),
{
    lemma_decimal_spells(n as nat);
}

proof fn lemma_decimal_spells(n: nat)
    ensures
        crate::number::decimal(n).len() > 0,
        all_digits(crate::number::decimal(n)),
        number_of(crate::number::decimal(n)) == n,
    decreases n,
{
    let s = crate::number::decimal(n);
    if n >= 10 {
        lemma_decimal_spells(n / 10);
        let t = crate::number::decimal(n / 10);
        assert(s.drop_last() =~= t);
        assert forall|i: int| 0 <= i < s.len() implies '0' <= #[trigger] s[i] <= '9' by {
            assert(s[i] == if i < t.len() {
                t[i]
            } else {
                crate::number::digit(n % 10)
            });
        }
    } else {
        assert(s.drop_last() =~= Seq::empty());
        assert(number_of(s.drop_last()) == 0);
    }
}

/// A run of zeros.
pub open spec fn zeros(count: nat) -> Seq<char> {
    Seq::new(count, |i: int| '0')
}

proof fn lemma_zeros_spell_zero(count: nat)
    ensures
        number_of(zeros(count)) == 0,
    decreases count,
{
    if count > 0 {
        assert(zeros(count).drop_last() =~= zeros((count - 1) as nat));
        lemma_zeros_spell_zero((count - 1) as nat);
    }
}

proof fn lemma_padded_decimal_spells(count: nat, n: nat)
    ensures
        all_digits(zeros(count) + crate::number::decimal(n)),
        number_of(zeros(count) + crate::number::decimal(n)) == n,
    decreases n,
{
    let d = crate::number::decimal(n);
    let s = zeros(count) + d;
    lemma_decimal_spells(n);
    assert forall|i: int| 0 <= i < s.len() implies '0' <= #[trigger] s[i] <= '9' by {
        if i >= count {
            assert(s[i] == d[i - count]);
        }
    }
    if n >= 10 {
        lemma_padded_decimal_spells(count, n / 10);
        assert(s.drop_last() =~= zeros(count) + crate::number::decimal(n / 10));
    } else {
        lemma_zeros_spell_zero(count);
        assert(s.drop_last() =~= zeros(count));
    }
}

proof fn lemma_digits_are_a_padded_decimal(s: Seq<char>) -> (count: nat)
    requires
        s.len() > 0,
        all_digits(s),
    ensures
        s == zeros(count) + crate::number::decimal(number_of(s)),
    decreases s.len(),
{
    let n = number_of(s);
    let c = s.last();
    let rest = s.drop_last();
    assert('0' <= s[s.len() - 1] <= '9');
    let value = (c as nat - '0' as nat) as nat;
    assert(crate::number::digit(value) == c);
    if s.len() == 1 {
        assert(number_of(rest) == 0);
        assert(s =~= zeros(0) + crate::number::decimal(n));
        0
    } else {
        assert forall|i: int| 0 <= i < rest.len() implies '0' <= #[trigger] rest[i] <= '9' by {
            assert(rest[i] == s[i]);
        }
        let count = lemma_digits_are_a_padded_decimal(rest);
        let m = number_of(rest);
        assert(s =~= rest.push(c));
        if m > 0 {
            assert(n / 10 == m && n % 10 == value);
            assert(s =~= zeros(count) + crate::number::decimal(n));
            count
        } else {
            assert(rest =~= zeros(count + 1));
            assert(s =~= zeros(count + 1) + crate::number::decimal(n));
            count + 1
        }
    }
}

/// A text is read as a number exactly if it is the decimal of that number, behind as many zeros
/// as one likes and an optional plus sign, and the number is in its range.
pub proof fn law_numbers_are_decimals(s: Seq<char>, max: u64, n: u64)
    ensures
        parsed(s, max) == Some(n) <==> n <= max && exists|count: nat|
            (if s.len() > 0 && s[0] == '+' {
                s.skip(1)
            } else {
                s
            }) == #[trigger] zeros(count) + crate::number::decimal(n as nat),
{
    let digits = if s.len() > 0 && s[0] == '+' {
        s.skip(1)
    } else {
        s
    };
    assert(digits =~= unsigned_part(s));
    if parsed(s, max) == Some(n) {
        let count = lemma_digits_are_a_padded_decimal(digits);
        assert(digits == zeros(count) + crate::number::decimal(n as nat));
    }
    if n <= max && exists|count: nat|
        digits == #[trigger] zeros(count) + crate::number::decimal(n as nat) {
        let count = choose|count: nat|
            digits == #[trigger] zeros(count) + crate::number::decimal(n as nat);
        lemma_padded_decimal_spells(count, n as nat);
        lemma_decimal_spells(n as nat);
    }
}

/// A text is not read as a number if a character other than a leading plus sign is no digit, if
/// there are no digits, or if the number is too large.
pub proof fn law_other_texts_are_no_numbers(s: Seq<char>, max: u64, i: int)
    requires
        0 <= i < s.len() && !('0' <= s[i] <= '9') && !(i == 0 && s[i] == '+') || s.len() == 0 || (
        s.len() == 1 && s[0] == '+') || (exists|n: nat|
            n > max && s == #[trigger] crate::number::decimal(n)),
    ensures
        parsed(s, max) is None,
{
    let digits = unsigned_part(s);
    if 0 <= i < s.len() && !('0' <= s[i] <= '9') && !(i == 0 && s[i] == '+') {
        if s[0] == '+' {
            assert(digits[i - 1] == s[i]);
        } else {
            assert(digits[i] == s[i]);
        }
    } else if s.len() > 0 && !(s.len() == 1 && s[0] == '+') {
        let n = choose|n: nat| n > max && s == #[trigger] crate::number::decimal(n);
        lemma_decimal_spells(n);
        assert('0' <= s[0] <= '9');
    }
}

/// A variable that is set to a number in decimal gives that number, whatever the default; one
/// that is not set gives the default. So the settings are the numbers that the variables spell,
/// or a refresh every six hours and 10 to 100 connections.
pub proof fn law_settings_are_the_numbers_given(
    interval: Option<String>,
    max_connections: Option<String>,
    min_connections: Option<String>,
    seconds: u64,
    most: u32,
    least: u32,
)
    requires
        interval matches Some(s) ==> s@ == crate::number::decimal(seconds as nat),
        interval is None ==> seconds == 21600,
        max_connections matches Some(s) ==> s@ == crate::number::decimal(most as nat),
        max_connections is None ==> most == 100,
        min_connections matches Some(s) ==> s@ == crate::number::decimal(least as nat),
        min_connections is None ==> least == 10,
    ensures
        match configured(interval, max_connections, min_connections) {
            Ok(config) => {
                &&& config.interval_seconds == seconds
                &&& config.max_connections == most
                &&& config.min_connections == least
                &&& config.acquire_timeout_seconds == 5
                &&& config.idle_timeout_seconds == 60
            },
            Err(_) => false,
        },
{
    law_decimal_is_parsed(seconds, u64::MAX);
    law_decimal_is_parsed(most as u64, u32::MAX as u64);
    law_decimal_is_parsed(least as u64, u32::MAX as u64);
}

/// A default is used where the variable is not set and nowhere else: a variable that is set gives
/// the same setting whatever the default is.
pub proof fn law_defaults_are_for_unset_variables(
    variable: Option<String>,
    default_value: u64,
    other_default: u64,
    max: u64,
    n: u64,
)
    ensures
        variable is None ==> setting(variable, default_value, max) == Some(default_value),
        variable is Some ==> setting(variable, default_value, max) == setting(
            variable,
            other_default,
            max,
        ),
        variable matches Some(s) ==> n <= max ==> s@ == crate::number::decimal(n as nat)
            ==> setting(variable, default_value, max) == Some(n),
{
    if n <= max {
        law_decimal_is_parsed(n, max);
    }
}

/// The settings are refused exactly if a variable that is set is no number in its range, and the
/// first such variable is the error.
pub proof fn law_first_bad_setting_is_the_error(
    interval: Option<String>,
    max_connections: Option<String>,
    min_connections: Option<String>,
)
    ensures
        ({
            let bad_interval = interval matches Some(s) && parsed(s@, u64::MAX) is None;
            let bad_most = max_connections matches Some(s) && parsed(s@, u32::MAX as u64) is None;
            let bad_least = min_connections matches Some(s) && parsed(s@, u32::MAX as u64) is None;
            match configured(interval, max_connections, min_connections) {
                Err(ConfigError::Interval) => bad_interval,
                Err(ConfigError::MaxConnections) => !bad_interval && bad_most,
                Err(ConfigError::MinConnections) => !bad_interval && !bad_most && bad_least,
                Ok(config) => {
                    &&& !bad_interval && !bad_most && !bad_least
                    &&& interval matches Some(s) ==> parsed(s@, u64::MAX) == Some(
                        config.interval_seconds,
                    )
                    &&& max_connections matches Some(s) ==> parsed(s@, u32::MAX as u64) == Some(
                        config.max_connections as u64,
                    )
                    &&& min_connections matches Some(s) ==> parsed(s@, u32::MAX as u64) == Some(
                        config.min_connections as u64,
                    )
                },
            }
        }),
{
}

} // verus!
