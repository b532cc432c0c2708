use vstd::prelude::*;
use crate::base::error::Error;

verus! {

/// Threads used when none is configured.
pub const EVH_DEFAULT_THREADS: usize = 1;

/// Read slabs used when none is configured.
pub const EVH_DEFAULT_READ_SLAB_COUNT: usize = 1000;

/// Read slab size used when none is configured.
pub const EVH_DEFAULT_READ_SLAB_SIZE: usize = 512;

/// Wait timeout (milliseconds) used when none is configured.
pub const EVH_DEFAULT_TIMEOUT: u16 = 1000;

/// Housekeeping period (milliseconds) used when none is configured.
pub const EVH_DEFAULT_HOUSEKEEPING_FREQUENCY_MILLIS: usize = 10000;

/// Statistics period (milliseconds) used when none is configured.
pub const EVH_DEFAULT_STATS_UPDATE_MILLIS: usize = 5000;

/// One setting of an event handler.
#[derive(Clone, Copy, Debug)]
pub enum ConfigOption {
    EvhThreads(usize),
    EvhReadSlabCount(usize),
    EvhReadSlabSize(usize),
    EvhTimeout(u16),
    EvhHouseKeeperFrequencyMillis(usize),
    EvhStatsUpdateMillis(usize),
    Debug(bool),
}

/// Which setting an option is.
pub open spec fn option_kind(o: ConfigOption) -> int {
    match o {
        ConfigOption::EvhThreads(_) => 0,
        ConfigOption::EvhReadSlabCount(_) => 1,
        ConfigOption::EvhReadSlabSize(_) => 2,
        ConfigOption::EvhTimeout(_) => 3,
        ConfigOption::EvhHouseKeeperFrequencyMillis(_) => 4,
        ConfigOption::EvhStatsUpdateMillis(_) => 5,
        ConfigOption::Debug(_) => 6,
    }
}

/// Some setting is given twice.
pub open spec fn has_duplicate(s: Seq<ConfigOption>) -> bool {
    exists|i: int, j: int| 0 <= i < j < s.len() && option_kind(#[trigger] s[i]) == option_kind(#[trigger] s[j])
}

/// The value of `o` when it is the numeric setting of kind `k`.
pub open spec fn usize_value(o: ConfigOption, k: int) -> Option<usize> {
    match o {
        ConfigOption::EvhThreads(v) => if k == 0 { Some(v) } else { None },
        ConfigOption::EvhReadSlabCount(v) => if k == 1 { Some(v) } else { None },
        ConfigOption::EvhReadSlabSize(v) => if k == 2 { Some(v) } else { None },
        ConfigOption::EvhHouseKeeperFrequencyMillis(v) => if k == 4 { Some(v) } else { None },
        ConfigOption::EvhStatsUpdateMillis(v) => if k == 5 { Some(v) } else { None },
        _ => None,
    }
}

/// The value of `o` when it is the numeric setting of kind `k`.
fn usize_value_exec(o: &ConfigOption, k: u8) -> (r: Option<usize>)
    ensures
        r == usize_value(*o, k as int),
{
    match o {
        ConfigOption::EvhThreads(v) => if k == 0 { Some(*v) } else { None },
        ConfigOption::EvhReadSlabCount(v) => if k == 1 { Some(*v) } else { None },
        ConfigOption::EvhReadSlabSize(v) => if k == 2 { Some(*v) } else { None },
        ConfigOption::EvhHouseKeeperFrequencyMillis(v) => if k == 4 { Some(*v) } else { None },
        ConfigOption::EvhStatsUpdateMillis(v) => if k == 5 { Some(*v) } else { None },
        _ => None,
    }
}

/// The value of the numeric setting of kind `k` (the first one given), or `d`.
pub open spec fn usize_or(s: Seq<ConfigOption>, k: int, d: usize) -> usize
    decreases s.len(),
{
    if s.len() == 0 {
        d
    } else {
        match usize_value(s[0], k) {
            Some(v) => v,
            None => usize_or(s.drop_first(), k, d),
        }
    }
}

/// The configured timeout (the first one given), or `d`.
pub open spec fn timeout_or(s: Seq<ConfigOption>, d: u16) -> u16
    decreases s.len(),
{
    if s.len() == 0 {
        d
    } else {
        match s[0] {
            ConfigOption::EvhTimeout(v) => v,
            _ => timeout_or(s.drop_first(), d),
        }
    }
}

/// The configured debug flag (the first one given), or `d`.
pub open spec fn debug_or(s: Seq<ConfigOption>, d: bool) -> bool
    decreases s.len(),
{
    if s.len() == 0 {
        d
    } else {
        match s[0] {
            ConfigOption::Debug(v) => v,
            _ => debug_or(s.drop_first(), d),
        }
    }
}

/// A list without a repeated setting has no repeated setting after its first option.
proof fn lemma_no_duplicate_rest(s: Seq<ConfigOption>)
    requires
        s.len() > 0,
        !has_duplicate(s),
    ensures
        !has_duplicate(s.drop_first()),
{
    let t = s.drop_first();
    assert forall|i: int, j: int| 0 <= i < j < t.len() implies option_kind(#[trigger] t[i]) != option_kind(#[trigger] t[j]) by {
        assert(t[i] == s[i + 1] && t[j] == s[j + 1]);
        if option_kind(t[i]) == option_kind(t[j]) {
            assert(option_kind(s[i + 1]) == option_kind(s[j + 1]));
        }
    }
}

/// The numeric setting at `j` is the one read for its kind.
proof fn lemma_usize_or_at(s: Seq<ConfigOption>, k: int, d: usize, j: int)
    requires
        !has_duplicate(s),
        0 <= j < s.len(),
        usize_value(s[j], k) is Some,
    ensures
        usize_or(s, k, d) == usize_value(s[j], k)->Some_0,
    decreases s.len(),
{
    if j > 0 {
        if usize_value(s[0], k) is Some {
            assert(option_kind(s[0]) == option_kind(s[j]));
            assert(has_duplicate(s));
        }
        lemma_no_duplicate_rest(s);
        assert(s.drop_first()[j - 1] == s[j]);
        lemma_usize_or_at(s.drop_first(), k, d, j - 1);
    }
}

/// A numeric setting that is not given is read as its default.
proof fn lemma_usize_or_absent(s: Seq<ConfigOption>, k: int, d: usize)
    requires
        forall|i: int| 0 <= i < s.len() ==> usize_value(#[trigger] s[i], k) is None,
    ensures
        usize_or(s, k, d) == d,
    decreases s.len(),
{
    if s.len() > 0 {
        assert(usize_value(s[0], k) is None);
        assert forall|i: int| 0 <= i < s.drop_first().len() implies usize_value(#[trigger] s.drop_first()[i], k) is None by {
            assert(s.drop_first()[i] == s[i + 1]);
        }
        lemma_usize_or_absent(s.drop_first(), k, d);
    }
}

/// The timeout at `j` is the one read.
proof fn lemma_timeout_or_at(s: Seq<ConfigOption>, d: u16, j: int)
    requires
        !has_duplicate(s),
        0 <= j < s.len(),
        s[j] is EvhTimeout,
    ensures
        timeout_or(s, d) == s[j]->EvhTimeout_0,
    decreases s.len(),
{
    if j > 0 {
        if s[0] is EvhTimeout {
            assert(option_kind(s[0]) == option_kind(s[j]));
            assert(has_duplicate(s));
        }
        lemma_no_duplicate_rest(s);
        assert(s.drop_first()[j - 1] == s[j]);
        lemma_timeout_or_at(s.drop_first(), d, j - 1);
    }
}

/// The debug flag at `j` is the one read.
proof fn lemma_debug_or_at(s: Seq<ConfigOption>, d: bool, j: int)
    requires
        !has_duplicate(s),
        0 <= j < s.len(),
        s[j] is Debug,
    ensures
        debug_or(s, d) == s[j]->Debug_0,
    decreases s.len(),
{
    if j > 0 {
        if s[0] is Debug {
            assert(option_kind(s[0]) == option_kind(s[j]));
            assert(has_duplicate(s));
        }
        lemma_no_duplicate_rest(s);
        assert(s.drop_first()[j - 1] == s[j]);
        lemma_debug_or_at(s.drop_first(), d, j - 1);
    }
}

/// Every option of a list that sets nothing twice takes effect: the value read for its
/// setting (the one `build_config` puts in the matching field) is the value it carries,
/// whatever the default. The numbers are the settings' kinds, as `build_config` reads them:
/// threads 0, read slab count 1, read slab size 2, housekeeping period 4, statistics period 5.
pub proof fn lemma_given_setting_used(s: Seq<ConfigOption>, j: int, d: usize, dt: u16, db: bool)
    requires
        !has_duplicate(s),
        0 <= j < s.len(),
    ensures
        s[j] matches ConfigOption::EvhThreads(v) ==> usize_or(s, 0, d) == v,
        s[j] matches ConfigOption::EvhReadSlabCount(v) ==> usize_or(s, 1, d) == v,
        s[j] matches ConfigOption::EvhReadSlabSize(v) ==> usize_or(s, 2, d) == v,
        s[j] matches ConfigOption::EvhHouseKeeperFrequencyMillis(v) ==> usize_or(s, 4, d) == v,
        s[j] matches ConfigOption::EvhStatsUpdateMillis(v) ==> usize_or(s, 5, d) == v,
        s[j] matches ConfigOption::EvhTimeout(t) ==> timeout_or(s, dt) == t,
        s[j] matches ConfigOption::Debug(b) ==> debug_or(s, db) == b,
{
    match s[j] {
        ConfigOption::EvhThreads(_) => lemma_usize_or_at(s, 0, d, j),
        ConfigOption::EvhReadSlabCount(_) => lemma_usize_or_at(s, 1, d, j),
        ConfigOption::EvhReadSlabSize(_) => lemma_usize_or_at(s, 2, d, j),
        ConfigOption::EvhHouseKeeperFrequencyMillis(_) => lemma_usize_or_at(s, 4, d, j),
        ConfigOption::EvhStatsUpdateMillis(_) => lemma_usize_or_at(s, 5, d, j),
        ConfigOption::EvhTimeout(_) => lemma_timeout_or_at(s, dt, j),
        ConfigOption::Debug(_) => lemma_debug_or_at(s, db, j),
    }
}

/// Two options of the same setting make a repeated setting, whatever their values; options
/// of different settings never do.
pub proof fn lemma_repeated_setting(s: Seq<ConfigOption>, i: int, j: int)
    requires
        0 <= i < j < s.len(),
    ensures
        (s[i] is EvhThreads && s[j] is EvhThreads) || (s[i] is EvhReadSlabCount && s[j] is EvhReadSlabCount)
            || (s[i] is EvhReadSlabSize && s[j] is EvhReadSlabSize) || (s[i] is EvhTimeout && s[j] is EvhTimeout)
            || (s[i] is EvhHouseKeeperFrequencyMillis && s[j] is EvhHouseKeeperFrequencyMillis)
            || (s[i] is EvhStatsUpdateMillis && s[j] is EvhStatsUpdateMillis) || (s[i] is Debug && s[j] is Debug)
            ==> has_duplicate(s),
        !has_duplicate(s) ==> option_kind(s[i]) != option_kind(s[j]),
        option_kind(s[i]) == option_kind(s[j]) ==> (s[i] is EvhThreads <==> s[j] is EvhThreads)
            && (s[i] is EvhReadSlabCount <==> s[j] is EvhReadSlabCount)
            && (s[i] is EvhReadSlabSize <==> s[j] is EvhReadSlabSize) && (s[i] is EvhTimeout <==> s[j] is EvhTimeout)
            && (s[i] is EvhHouseKeeperFrequencyMillis <==> s[j] is EvhHouseKeeperFrequencyMillis)
            && (s[i] is EvhStatsUpdateMillis <==> s[j] is EvhStatsUpdateMillis) && (s[i] is Debug <==> s[j] is Debug),
{
    if option_kind(s[i]) == option_kind(s[j]) {
        assert(has_duplicate(s));
    }
}

/// A numeric setting that no option of the list gives is read as its default.
pub proof fn lemma_absent_setting_default(s: Seq<ConfigOption>, k: int, d: usize)
    requires
        forall|i: int| 0 <= i < s.len() ==> option_kind(#[trigger] s[i]) != k,
    ensures
        usize_or(s, k, d) == d,
{
    assert forall|i: int| 0 <= i < s.len() implies usize_value(#[trigger] s[i], k) is None by {
        assert(option_kind(s[i]) != k);
    }
    lemma_usize_or_absent(s, k, d);
}

/// The settings of an event handler.
#[derive(Clone, Copy, Debug)]
pub struct EventHandlerConfig {
    pub threads: usize,
    pub debug: bool,
    pub timeout: u16,
    pub read_slab_size: usize,
    pub read_slab_count: usize,
    pub housekeeping_frequency_millis: usize,
    pub stats_update_frequency_millis: usize,
}

/// Whether two options are the same setting.
fn same_kind(a: &ConfigOption, b: &ConfigOption) -> (r: bool)
    ensures
        r == (option_kind(*a) == option_kind(*b)),
{
    match (a, b) {
        (ConfigOption::EvhThreads(_), ConfigOption::EvhThreads(_)) => true,
        (ConfigOption::EvhReadSlabCount(_), ConfigOption::EvhReadSlabCount(_)) => true,
        (ConfigOption::EvhReadSlabSize(_), ConfigOption::EvhReadSlabSize(_)) => true,
        (ConfigOption::EvhTimeout(_), ConfigOption::EvhTimeout(_)) => true,
        (ConfigOption::EvhHouseKeeperFrequencyMillis(_), ConfigOption::EvhHouseKeeperFrequencyMillis(_)) => true,
        (ConfigOption::EvhStatsUpdateMillis(_), ConfigOption::EvhStatsUpdateMillis(_)) => true,
        (ConfigOption::Debug(_), ConfigOption::Debug(_)) => true,
        _ => false,
    }
}

/// The value of the numeric setting of kind `k` (see `usize_or`).
fn get_usize(s: &[ConfigOption], k: u8, d: usize) -> (r: usize)
    ensures
        r == usize_or(s@, k as int, d),
{
    let mut i: usize = s.len();
    let mut acc: usize = d;
    while i > 0
        invariant
            i <= s@.len(),
            acc == usize_or(s@.skip(i as int), k as int, d),
        decreases i,
    {
        i -= 1;
        assert(s@.skip(i as int).drop_first() =~= s@.skip(i + 1));
        assert(s@.skip(i as int)[0] == s@[i as int]);
        acc = match usize_value_exec(&s[i], k) {
            Some(v) => v,
            None => acc,
        };
    }
    assert(s@.skip(0) =~= s@);
    acc
}

/// The configured timeout (see `timeout_or`).
fn get_timeout(s: &[ConfigOption], d: u16) -> (r: u16)
    ensures
        r == timeout_or(s@, d),
{
    let mut i: usize = s.len();
    let mut acc: u16 = d;
    while i > 0
        invariant
            i <= s@.len(),
            acc == timeout_or(s@.skip(i as int), d),
        decreases i,
    {
        i -= 1;
        assert(s@.skip(i as int).drop_first() =~= s@.skip(i + 1));
        assert(s@.skip(i as int)[0] == s@[i as int]);
        acc = match s[i] {
            ConfigOption::EvhTimeout(v) => v,
            _ => acc,
        };
    }
    assert(s@.skip(0) =~= s@);
    acc
}

/// The configured debug flag (see `debug_or`).
fn get_debug(s: &[ConfigOption], d: bool) -> (r: bool)
    ensures
        r == debug_or(s@, d),
{
    let mut i: usize = s.len();
    let mut acc: bool = d;
    while i > 0
        invariant
            i <= s@.len(),
            acc == debug_or(s@.skip(i as int), d),
        decreases i,
    {
        i -= 1;
        assert(s@.skip(i as int).drop_first() =~= s@.skip(i + 1));
        assert(s@.skip(i as int)[0] == s@[i as int]);
        acc = match s[i] {
            ConfigOption::Debug(v) => v,
            _ => acc,
        };
    }
    assert(s@.skip(0) =~= s@);
    acc
}

/// The event handler's settings from `configs`, with defaults for those not given:
/// `Configuration` when a setting is given twice, when there are no read slabs, when a read
/// slab is smaller than 25 bytes, or when the timeout or the housekeeping period is zero.
pub fn build_config(configs: &[ConfigOption]) -> (r: Result<EventHandlerConfig, Error>)
    ensures
        ({
            let s = configs@;
            let count = usize_or(s, 1, EVH_DEFAULT_READ_SLAB_COUNT);
            let size = usize_or(s, 2, EVH_DEFAULT_READ_SLAB_SIZE);
            let timeout = timeout_or(s, EVH_DEFAULT_TIMEOUT);
            let hk = usize_or(s, 4, EVH_DEFAULT_HOUSEKEEPING_FREQUENCY_MILLIS);
            if has_duplicate(s) || count == 0 || size < 25 || timeout == 0 || hk == 0 {
                r == Err::<EventHandlerConfig, Error>(Error::Configuration)
            } else {
                r == Ok::<EventHandlerConfig, Error>(EventHandlerConfig {
                    threads: usize_or(s, 0, EVH_DEFAULT_THREADS),
                    debug: debug_or(s, false),
                    timeout,
                    read_slab_size: size,
                    read_slab_count: count,
                    housekeeping_frequency_millis: hk,
                    stats_update_frequency_millis: usize_or(s, 5, EVH_DEFAULT_STATS_UPDATE_MILLIS),
                })
            }
        }),
{
    let n = configs.len();
    let mut i: usize = 0;
    while i < n
        invariant
            n == configs@.len(),
            i <= n,
            forall|a: int, b: int| 0 <= a < b < n && a < i ==> option_kind(#[trigger] configs@[a]) != option_kind(#[trigger] configs@[b]),
        decreases n - i,
    {
        let mut j: usize = i + 1;
        while j < n
            invariant
                n == configs@.len(),
                i < n,
                i < j <= n,
                forall|a: int, b: int| 0 <= a < b < n && a < i ==> option_kind(#[trigger] configs@[a]) != option_kind(#[trigger] configs@[b]),
                forall|b: int| i < b < j ==> option_kind(configs@[i as int]) != option_kind(#[trigger] configs@[b]),
            decreases n - j,
        {
            if same_kind(&configs[i], &configs[j]) {
                return Err(Error::Configuration);
            }
            j += 1;
        }
        i += 1;
    }
    let threads = get_usize(configs, 0, EVH_DEFAULT_THREADS);
    let read_slab_count = get_usize(configs, 1, EVH_DEFAULT_READ_SLAB_COUNT);
    let read_slab_size = get_usize(configs, 2, EVH_DEFAULT_READ_SLAB_SIZE);
    let debug = get_debug(configs, false);
    let timeout = get_timeout(configs, EVH_DEFAULT_TIMEOUT);
    let housekeeping_frequency_millis = get_usize(configs, 4, EVH_DEFAULT_HOUSEKEEPING_FREQUENCY_MILLIS);
    let stats_update_frequency_millis = get_usize(configs, 5, EVH_DEFAULT_STATS_UPDATE_MILLIS);
    if read_slab_count == 0 || read_slab_size < 25 || timeout == 0 || housekeeping_frequency_millis == 0 {
        return Err(Error::Configuration);
    }
    Ok(EventHandlerConfig {
        threads,
        debug,
        timeout,
        read_slab_size,
        read_slab_count,
        housekeeping_frequency_millis,
        stats_update_frequency_millis,
    })
}

} // verus!
