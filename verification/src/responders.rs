//! Answers to the queries of the presentation layer.
//!
//! Each function reads the loaded model and returns plain values. Times
//! are shown relative to a fixed anchor: the time at which a configuration
//! first executed a derived input is moved to the anchor, and every other
//! time of the configuration with it.

use crate::app_state::AppState;
use crate::config::FuzzerConfig;
use crate::custom_types::FileId;
use crate::custom_types::FileMeta;
use crate::custom_types::InputId;
use crate::custom_types::InputMeta;
use crate::custom_types::LineMeta;
use crate::custom_types::LineMetaView;
use crate::inputs_database::run_times;
use crate::inputs_database::select;
use crate::inputs_database::InputsDatabase;
use crate::lineage_index::find_entry;
use crate::paths::file_name_of;
use crate::paths::path_file_name;
use crate::paths::string_from_chars;
use crate::queries::byte_views;
use crate::queries::change_counts;
use crate::queries::coverage_of_each;
use crate::queries::coverage_views;
use crate::queries::file_coverage;
use crate::queries::is_seed_named;
use crate::queries::lines_in_file;
use crate::search::first_index;
use crate::sut_database::hits_of;
use crate::sut_database::views_of;
use crate::sut_database::SUT;
use crate::text::slice_of;
use crate::text::to_chars;
use vstd::prelude::*;

verus! {

/// The name under which a file is shown: the last component of its path,
/// or the whole path if it has none.
pub open spec fn display_name(path: Seq<char>) -> Seq<char> {
    match path_file_name(path) {
        Some(name) => name,
        None => path,
    }
}

/// The name under which the file at `path` is shown.
pub fn shown_name(path: &str) -> (r: String)
    ensures
        r@ == display_name(path@),
{
    match file_name_of(path) {
        Some(name) => name,
        None => path.to_owned(),
    }
}

/// The earliest time of execution of a derived input is never after the
/// latest.
pub proof fn lemma_run_times_ordered(inputs: Seq<InputMeta>, c: u32, n: int)
    ensures
        run_times(inputs, c, n) matches Some(t) ==> t.0 <= t.1,
    decreases n,
{
    if n > 0 {
        lemma_run_times_ordered(inputs, c, n - 1);
    }
}

/// The time of execution of every derived input of a configuration lies
/// within the run-time bounds of the configuration.
pub proof fn lemma_run_times_bound(inputs: Seq<InputMeta>, c: u32, n: int, k: int)
    requires
        0 <= k < n <= inputs.len(),
        !inputs[k].is_initial_seed,
        inputs[k].fuzzer_configuration == c,
    ensures
        run_times(inputs, c, n) matches Some(t) && t.0 <= inputs[k].executed_on <= t.1,
    decreases n,
{
    lemma_run_times_ordered(inputs, c, n - 1);
    if k < n - 1 {
        lemma_run_times_bound(inputs, c, n - 1, k);
    }
}

/// Whether `year` is a leap year of the Gregorian calendar.
pub open spec fn is_leap_year(year: int) -> bool {
    year % 4 == 0 && (year % 100 != 0 || year % 400 == 0)
}

/// The number of days of `year` that lie before its month `month`.
pub open spec fn days_before_month(year: int, month: int) -> int {
    let common: int = if month <= 1 {
        0
    } else if month == 2 {
        31
    } else if month == 3 {
        59
    } else if month == 4 {
        90
    } else if month == 5 {
        120
    } else if month == 6 {
        151
    } else if month == 7 {
        181
    } else if month == 8 {
        212
    } else if month == 9 {
        243
    } else if month == 10 {
        273
    } else if month == 11 {
        304
    } else {
        334
    };
    if month > 2 && is_leap_year(year) {
        common + 1
    } else {
        common
    }
}

/// The number of a day of the Gregorian calendar, counted from 1 January
/// 1970, which is day 0: 365 days for each year before `year`, one more for
/// each leap year among them, the days of `year` before `month`, and the
/// days of the month before `day`.
pub open spec fn day_number(year: int, month: int, day: int) -> int {
    365 * (year - 1) + (year - 1) / 4 - (year - 1) / 100 + (year - 1) / 400 + days_before_month(
        year,
        month,
    ) + day - 719_163
}

/// Midnight of a day where local time is universal time, in milliseconds
/// since the epoch.
pub open spec fn utc_midnight_millis(year: int, month: int, day: int) -> int {
    day_number(year, month, day) * 86_400_000
}

/// `t` is a whole second less than a day away from midnight of the given
/// day in universal time.
pub open spec fn near_midnight(t: i64, year: int, month: int, day: int) -> bool {
    utc_midnight_millis(year, month, day) - 86_400_000 < t < utc_midnight_millis(year, month, day)
        + 86_400_000 && t % 1000 == 0
}

/// Calls `chrono::TimeZone::with_ymd_and_hms` on `chrono::Local` for
/// midnight of the given day and, where that names one moment, gives the
/// moment in milliseconds since the epoch (`DateTime::timestamp_millis`).
/// Which moment that is depends on the time zone of the machine. Claimed is
/// what holds in every time zone. chrono takes the local midnight as a
/// moment of universal time, counting days as `Datelike::num_days_from_ce`
/// does, and subtracts the offset of the zone, which is a number of seconds
/// that `FixedOffset` keeps strictly between minus and plus 86 400. So the
/// result is a whole second, less than a day away from midnight of that
/// day in universal time.
#[verifier::external_body]
fn local_midnight_millis(year: i32, month: u32, day: u32) -> (r: Option<i64>)
    ensures
        r matches Some(t) ==> near_midnight(t, year as int, month as int, day as int),
{
    match chrono::TimeZone::with_ymd_and_hms(&chrono::Local, year, month, day, 0, 0, 0).single() {
        Some(moment) => Some(moment.timestamp_millis()),
        None => None,
    }
}

/// The day at whose start the anchor lies: 1 January 2024, as year, month
/// and day.
pub fn anchor_date() -> (r: (i32, u32, u32))
    ensures
        r == (2024i32, 1u32, 1u32),
{
    (2024, 1, 1)
}

/// The anchor to which times are moved: midnight of the day that
/// [`anchor_date`] gives, in the local time zone, in milliseconds since the
/// epoch. There is none where that midnight is no single moment of the local
/// time. Whatever the time zone, the anchor is a whole second less than a
/// day away from midnight of 1 January 2024 in universal time.
pub fn get_normalized_starttime_millis() -> (r: Option<i64>)
    ensures
        r matches Some(t) ==> 1_703_980_800_000 < t < 1_704_153_600_000 && t % 1000 == 0,
{
    let date: (i32, u32, u32) = anchor_date();
    local_midnight_millis(date.0, date.1, date.2)
}

/// A time of execution moved with its configuration: the earliest time
/// `min_t` of the configuration goes to `anchor`.
pub open spec fn normalized(t: i64, min_t: i64, anchor: i64) -> int {
    t - (min_t - anchor)
}

/// The span of a configuration, moved to the anchor, fits the range of
/// times.
pub open spec fn span_fits(bounds: Option<(i64, i64)>, anchor: i64) -> bool {
    match bounds {
        Some((lo, hi)) => anchor + (hi - lo) <= i64::MAX,
        None => true,
    }
}

/// The spans of all configurations, moved to the anchor, fit the range of
/// times.
pub open spec fn times_fit(db: &InputsDatabase, anchor: i64) -> bool {
    forall|k: int|
        0 <= k < db.configurations().len() ==> span_fits(
            run_times(
                db.inputs(),
                (#[trigger] db.configurations()[k]).fuzzer_configuration_id,
                db.inputs().len() as int,
            ),
            anchor,
        )
}

/// Whether the spans of all configurations, moved to the anchor, fit the
/// range of times.
pub fn check_times(data: &AppState, anchor: i64) -> (r: bool)
    ensures
        r == times_fit(&data.inputs(), anchor),
{
    let db = data.get_inputs_db();
    let configs = db.get_all_fuzzer_configurations();
    let mut k: usize = 0;
    while k < configs.len()
        invariant
            k <= configs@.len(),
            *db == data.inputs(),
            configs@ == db.configurations(),
            forall|j: int|
                0 <= j < k ==> span_fits(
                    run_times(
                        db.inputs(),
                        (#[trigger] db.configurations()[j]).fuzzer_configuration_id,
                        db.inputs().len() as int,
                    ),
                    anchor,
                ),
        decreases configs@.len() - k,
    {
        match db.find_run_times(&configs[k].fuzzer_configuration_id) {
            Some((lo, hi)) => {
                proof {
                    lemma_run_times_ordered(
                        db.inputs(),
                        configs@[k as int].fuzzer_configuration_id,
                        db.inputs().len() as int,
                    );
                }
                if anchor as i128 + (hi as i128 - lo as i128) > i64::MAX as i128 {
                    proof {
                        assert(!span_fits(
                            run_times(
                                db.inputs(),
                                db.configurations()[k as int].fuzzer_configuration_id,
                                db.inputs().len() as int,
                            ),
                            anchor,
                        ));
                    }
                    return false;
                }
            },
            None => {},
        }
        k = k + 1;
    }
    true
}

/// A time of execution moved with its configuration.
fn normalize(t: i64, lo: i64, hi: i64, anchor: i64) -> (r: i64)
    requires
        lo <= t <= hi,
        anchor + (hi - lo) <= i64::MAX,
    ensures
        r == normalized(t, lo, anchor),
{
    ((t as i128) - (lo as i128) + (anchor as i128)) as i64
}

/// A derived input at its place in time.
#[derive(Clone, Copy, Debug, PartialEq, Eq, Structural)]
pub struct UIOverviewInfo {
    /// The id that the fuzzer gave the input
    pub input_id: u32,
    /// When the input was executed, moved with its configuration
    pub executed_on: i64,
    pub fuzzer_coverage: u32,
}

/// The derived inputs of one configuration at their places in time.
#[derive(Debug)]
pub struct ConfigurationOverview {
    pub fuzzer_configuration_id: u32,
    pub inputs: Vec<UIOverviewInfo>,
}

/// The derived inputs of configuration `c` among the first `n` inputs, at
/// their places in time, in the order of their ids.
pub open spec fn overview(inputs: Seq<InputMeta>, c: u32, lo: i64, anchor: i64, n: int) -> Seq<
    UIOverviewInfo,
>
    decreases n,
{
    if n <= 0 {
        Seq::empty()
    } else {
        let rest = overview(inputs, c, lo, anchor, n - 1);
        let m = inputs[n - 1];
        if !m.is_initial_seed && m.fuzzer_configuration == c {
            rest.push(
                UIOverviewInfo {
                    input_id: m.fuzz_input_id,
                    executed_on: normalized(m.executed_on, lo, anchor) as i64,
                    fuzzer_coverage: m.fuzzer_coverage,
                },
            )
        } else {
            rest
        }
    }
}

/// The earliest time of execution of a derived input of configuration `c`;
/// zero if it has none.
pub open spec fn first_time(inputs: Seq<InputMeta>, c: u32) -> i64 {
    match run_times(inputs, c, inputs.len() as int) {
        Some((lo, hi)) => lo,
        None => 0,
    }
}

/// For each configuration, its derived inputs at their places in time.
pub fn get_line_coverage_over_time(data: &AppState, anchor: i64) -> (r: Vec<ConfigurationOverview>)
    requires
        times_fit(&data.inputs(), anchor),
    ensures
        r@.len() == data.inputs().configurations().len(),
        forall|k: int|
            0 <= k < r@.len() ==> (#[trigger] r@[k]).fuzzer_configuration_id
                == data.inputs().configurations()[k].fuzzer_configuration_id && r@[k].inputs@
                == overview(
                data.inputs().inputs(),
                r@[k].fuzzer_configuration_id,
                first_time(data.inputs().inputs(), r@[k].fuzzer_configuration_id),
                anchor,
                data.inputs().inputs().len() as int,
            ),
{
    let db = data.get_inputs_db();
    let configs = db.get_all_fuzzer_configurations();
    let n = db.input_count();
    let mut r: Vec<ConfigurationOverview> = Vec::new();
    let mut k: usize = 0;
    while k < configs.len()
        invariant
            k <= configs@.len(),
            *db == data.inputs(),
            configs@ == db.configurations(),
            n == db.inputs().len(),
            times_fit(db, anchor),
            r@.len() == k,
            forall|j: int|
                0 <= j < k ==> (#[trigger] r@[j]).fuzzer_configuration_id
                    == db.configurations()[j].fuzzer_configuration_id && r@[j].inputs@ == overview(
                    db.inputs(),
                    r@[j].fuzzer_configuration_id,
                    first_time(db.inputs(), r@[j].fuzzer_configuration_id),
                    anchor,
                    n as int,
                ),
        decreases configs@.len() - k,
    {
        let c = configs[k].fuzzer_configuration_id;
        let bounds = db.find_run_times(&c);
        let mut list: Vec<UIOverviewInfo> = Vec::new();
        proof {
            assert(span_fits(
                run_times(
                    db.inputs(),
                    db.configurations()[k as int].fuzzer_configuration_id,
                    n as int,
                ),
                anchor,
            ));
        }
        match bounds {
            Some((lo, hi)) => {
                let mut i: usize = 0;
                while i < n
                    invariant
                        i <= n,
                        n == db.inputs().len(),
                        run_times(db.inputs(), c, n as int) == Some((lo, hi)),
                        anchor + (hi - lo) <= i64::MAX,
                        list@ == overview(db.inputs(), c, lo, anchor, i as int),
                    decreases n - i,
                {
                    let m = db.get_meta(&InputId(i + 1)).unwrap();
                    if !m.is_initial_seed && m.fuzzer_configuration == c {
                        proof {
                            lemma_run_times_bound(db.inputs(), c, n as int, i as int);
                        }
                        list.push(
                            UIOverviewInfo {
                                input_id: m.fuzz_input_id,
                                executed_on: normalize(m.executed_on, lo, hi, anchor),
                                fuzzer_coverage: m.fuzzer_coverage,
                            },
                        );
                    }
                    i = i + 1;
                }
            },
            None => {
                proof {
                    lemma_no_overview(db.inputs(), c, 0, anchor, n as int);
                }
            },
        }
        r.push(ConfigurationOverview { fuzzer_configuration_id: c, inputs: list });
        k = k + 1;
    }
    r
}

/// A configuration without derived inputs has none to show.
pub proof fn lemma_no_overview(inputs: Seq<InputMeta>, c: u32, lo: i64, anchor: i64, n: int)
    requires
        n <= inputs.len(),
        run_times(inputs, c, n) is None,
    ensures
        overview(inputs, c, lo, anchor, n) == Seq::<UIOverviewInfo>::empty(),
    decreases n,
{
    if n > 0 {
        lemma_no_overview(inputs, c, lo, anchor, n - 1);
    }
}

/// An initial seed with the inputs that descend from it: for each, its id
/// and the id that the fuzzer gave it.
#[derive(Debug)]
pub struct SeedChildren {
    pub seed_fuzz_input_id: u32,
    pub children: Vec<(usize, u32)>,
}

/// What is shown of a fuzzer configuration.
#[derive(Debug)]
pub struct UIFuzzerInfo {
    pub fuzzer_configuration_id: u32,
    pub fuzzer_configuration_name: String,
    pub total_initial_seeds: usize,
    pub total_inputs: usize,
    /// The seeds that have descendants, in the order of their ids
    pub initial_seeds_children_input_id_map: Vec<SeedChildren>,
    /// Time between the first and the last execution of a derived input,
    /// in milliseconds; `None` if the configuration has no derived input
    pub run_time_millis: Option<u64>,
}

/// The registered inputs among the first `n` of `list`, each with the id
/// that the fuzzer gave it.
pub open spec fn child_pairs(db: &InputsDatabase, list: Seq<InputId>, n: int) -> Seq<(usize, u32)>
    decreases n,
{
    if n <= 0 {
        Seq::empty()
    } else {
        let rest = child_pairs(db, list, n - 1);
        let d = list[n - 1];
        if db.knows(d) {
            rest.push((d.0, db.inputs()[d.0 - 1].fuzz_input_id))
        } else {
            rest
        }
    }
}

/// Those of the first `n` of `seeds` that have descendants, each with its
/// descendants.
pub open spec fn seeds_with_children(db: &InputsDatabase, c: u32, seeds: Seq<InputId>, n: int)
    -> Seq<(u32, Seq<(usize, u32)>)>
    decreases n,
{
    if n <= 0 {
        Seq::empty()
    } else {
        let rest = seeds_with_children(db, c, seeds, n - 1);
        let s = seeds[n - 1];
        if db.knows(s) {
            let f = db.inputs()[s.0 - 1].fuzz_input_id;
            match db.children_of(c, f) {
                Some(list) => rest.push((f, child_pairs(db, list, list.len() as int))),
                None => rest,
            }
        } else {
            rest
        }
    }
}

/// The mathematical content of a list of seeds with their descendants.
pub open spec fn seed_children_views(v: Seq<SeedChildren>) -> Seq<(u32, Seq<(usize, u32)>)> {
    Seq::new(v.len(), |k: int| (v[k].seed_fuzz_input_id, v[k].children@))
}

/// The time between the first and the last execution of a derived input of
/// configuration `c`.
pub open spec fn run_time(inputs: Seq<InputMeta>, c: u32) -> Option<u64> {
    match run_times(inputs, c, inputs.len() as int) {
        Some((lo, hi)) => Some((hi - lo) as u64),
        None => None,
    }
}

/// `info` is what is shown of the configuration `cfg`.
pub open spec fn shows_configuration(info: UIFuzzerInfo, db: &InputsDatabase, cfg: FuzzerConfig)
    -> bool {
    let c = cfg.fuzzer_configuration_id;
    let n = db.inputs().len() as int;
    let seeds = select(db.inputs(), true, Some(c), n);
    &&& info.fuzzer_configuration_id == c
    &&& info.fuzzer_configuration_name@ == cfg.fuzzer_configuration@
    &&& info.total_initial_seeds == seeds.len()
    &&& info.total_inputs == select(db.inputs(), false, Some(c), n).len()
    &&& seed_children_views(info.initial_seeds_children_input_id_map@) == seeds_with_children(
        db,
        c,
        seeds,
        seeds.len() as int,
    )
    &&& info.run_time_millis == run_time(db.inputs(), c)
}

/// The registered inputs of `list`, each with the id that the fuzzer gave
/// it.
fn pairs_of(db: &InputsDatabase, list: &Vec<InputId>) -> (r: Vec<(usize, u32)>)
    ensures
        r@ == child_pairs(db, list@, list@.len() as int),
{
    let mut r: Vec<(usize, u32)> = Vec::new();
    let mut n: usize = 0;
    while n < list.len()
        invariant
            n <= list@.len(),
            r@ == child_pairs(db, list@, n as int),
        decreases list@.len() - n,
    {
        let d = list[n];
        match db.get_meta(&d) {
            Some(m) => {
                r.push((d.0, m.fuzz_input_id));
            },
            None => {},
        }
        n = n + 1;
    }
    r
}

/// What is shown of each fuzzer configuration: how many seeds and derived
/// inputs it has, how long it ran, and which inputs descend from each of
/// its seeds.
pub fn get_fuzzer_info(data: &AppState) -> (r: Vec<UIFuzzerInfo>)
    ensures
        r@.len() == data.inputs().configurations().len(),
        forall|k: int|
            0 <= k < r@.len() ==> shows_configuration(
                #[trigger] r@[k],
                &data.inputs(),
                data.inputs().configurations()[k],
            ),
{
    let db = data.get_inputs_db();
    let configs = db.get_all_fuzzer_configurations();
    let index = db.get_children_index();
    let mut r: Vec<UIFuzzerInfo> = Vec::new();
    let mut k: usize = 0;
    while k < configs.len()
        invariant
            k <= configs@.len(),
            *db == data.inputs(),
            configs@ == db.configurations(),
            index@ == db.children_index(),
            r@.len() == k,
            forall|j: int|
                0 <= j < k ==> shows_configuration(#[trigger] r@[j], db, db.configurations()[j]),
        decreases configs@.len() - k,
    {
        let cfg = &configs[k];
        let c = cfg.fuzzer_configuration_id;
        let seeds = db.get_all_initial_seeds_for_fuzzer_id(&c);
        let derived = db.get_all_inputs_for_fuzzer_id(&c);
        let run_time_millis = match db.find_run_times(&c) {
            Some((lo, hi)) => {
                proof {
                    lemma_run_times_ordered(db.inputs(), c, db.inputs().len() as int);
                }
                Some(((hi as i128) - (lo as i128)) as u64)
            },
            None => None,
        };
        let mut map: Vec<SeedChildren> = Vec::new();
        let mut i: usize = 0;
        proof {
            assert(seed_children_views(map@) =~= seeds_with_children(db, c, seeds@, 0));
        }
        while i < seeds.len()
            invariant
                i <= seeds@.len(),
                index@ == db.children_index(),
                seed_children_views(map@) == seeds_with_children(db, c, seeds@, i as int),
            decreases seeds@.len() - i,
        {
            match db.get_meta(&seeds[i]) {
                Some(m) => {
                    let f = m.fuzz_input_id;
                    match find_entry(index, c, f) {
                        Some(e) => {
                            let ghost before = map@;
                            let children = pairs_of(db, &index[e].children);
                            let ghost shown = children@;
                            map.push(SeedChildren { seed_fuzz_input_id: f, children });
                            proof {
                                assert(seed_children_views(map@) =~= seed_children_views(
                                    before,
                                ).push((f, shown)));
                            }
                        },
                        None => {},
                    }
                },
                None => {},
            }
            i = i + 1;
        }
        r.push(
            UIFuzzerInfo {
                fuzzer_configuration_id: c,
                fuzzer_configuration_name: cfg.fuzzer_configuration.clone(),
                total_initial_seeds: seeds.len(),
                total_inputs: derived.len(),
                initial_seeds_children_input_id_map: map,
                run_time_millis,
            },
        );
        k = k + 1;
    }
    r
}

/// What is shown of a source file.
#[derive(Debug)]
pub struct UIFileInfo {
    pub name: String,
    pub id: FileId,
    /// The records of the lines of the file, in line order
    pub lines: Vec<LineMeta>,
    pub content: String,
    /// For each configuration, its id and how many distinct lines of the
    /// file it has covered
    pub unique_lines_covered: Vec<(u32, u32)>,
}

impl UIFileInfo {
    /// What is shown of the file `file_meta` with id `id`, without lines,
    /// content and counts.
    pub fn new(file_meta: &FileMeta, id: FileId) -> (r: UIFileInfo)
        ensures
            r.name@ == display_name(file_meta.name@),
            r.id == id,
            r.lines@.len() == 0,
            r.content@.len() == 0,
            r.unique_lines_covered@.len() == 0,
    {
        UIFileInfo {
            name: shown_name(file_meta.name.as_str()),
            id,
            lines: Vec::new(),
            content: String::new(),
            unique_lines_covered: Vec::new(),
        }
    }
}

/// The text that is shown for a file: its content, or a fixed notice where
/// the content could not be read, without the line feed at its end if it
/// has one.
pub open spec fn shown_content(content: Option<String>) -> Seq<char> {
    let text = match content {
        Some(text) => text@,
        None => "File content unavailable"@,
    };
    if text.len() > 0 && text.last() == '\n' {
        text.drop_last()
    } else {
        text
    }
}

/// For each configuration, its id and the count that `hits` keeps for it.
pub open spec fn covered_per_configuration(configs: Seq<FuzzerConfig>, hits: Map<u32, u32>) -> Seq<
    (u32, u32),
> {
    Seq::new(
        configs.len(),
        |k: int|
            (
                configs[k].fuzzer_configuration_id,
                hits_of(hits, configs[k].fuzzer_configuration_id) as u32,
            ),
    )
}

/// `info` is what is shown of file `f + 1`, given its content.
pub open spec fn shows_file(info: UIFileInfo, data: &AppState, f: int, content: Option<String>)
    -> bool {
    &&& info.name@ == display_name(data.sut().files()[f].name@)
    &&& info.id == FileId((f + 1) as usize)
    &&& views_of(info.lines@) == data.sut().line_views()[f]
    &&& info.content@ == shown_content(content)
    &&& info.unique_lines_covered@ == covered_per_configuration(
        data.inputs().configurations(),
        data.sut().files()[f].unique_line_hits@,
    )
}

/// The text that is shown for a file.
fn content_to_show(sut_db: &SUT, content: &Option<String>) -> (r: String)
    ensures
        r@ == shown_content(*content),
{
    let copy = match content {
        Some(text) => Some(text.clone()),
        None => None,
    };
    let text = sut_db.read_file_content(copy);
    let chars = to_chars(text.as_str());
    let n = chars.len();
    if n > 0 && chars[n - 1] == '\n' {
        proof {
            assert(chars@.subrange(0, n - 1) == chars@.drop_last());
        }
        string_from_chars(slice_of(chars.as_slice(), 0, n - 1))
    } else {
        text
    }
}

/// What is shown of each source file, in the order of the file ids.
/// `contents` holds the text of each file in that order, `None` where it
/// could not be read.
pub fn get_sut(data: &AppState, contents: &Vec<Option<String>>) -> (r: Vec<UIFileInfo>)
    requires
        data.sut().wf(),
        contents@.len() == data.sut().files().len(),
    ensures
        r@.len() == data.sut().files().len(),
        forall|f: int| 0 <= f < r@.len() ==> shows_file(#[trigger] r@[f], data, f, contents@[f]),
{
    broadcast use vstd::std_specs::hash::group_hash_axioms;

    let db = data.get_inputs_db();
    let sut_db = data.get_sut_db();
    let configs = db.get_all_fuzzer_configurations();
    let files = sut_db.get_all_file_meta();
    let records = sut_db.get_file_id_line_num_line_meta_map();
    let mut r: Vec<UIFileInfo> = Vec::new();
    let mut f: usize = 0;
    while f < files.len()
        invariant
            f <= files@.len(),
            *db == data.inputs(),
            *sut_db == data.sut(),
            sut_db.wf(),
            configs@ == db.configurations(),
            files@ == sut_db.files(),
            records@ == sut_db.line_records(),
            contents@.len() == files@.len(),
            r@.len() == f,
            forall|g: int| 0 <= g < f ==> shows_file(#[trigger] r@[g], data, g, contents@[g]),
        decreases files@.len() - f,
    {
        let meta = &files[f];
        let mut info = UIFileInfo::new(meta, FileId(f + 1));
        let list = &records[f];
        let mut j: usize = 0;
        proof {
            assert(sut_db.file_wf(f as int));
        }
        while j < list.len()
            invariant
                j <= list@.len(),
                info.name@ == display_name(meta.name@),
                info.id == FileId((f + 1) as usize),
                info.unique_lines_covered@.len() == 0,
                views_of(info.lines@) == views_of(list@).take(j as int),
            decreases list@.len() - j,
        {
            let copy = list[j].clone();
            let ghost before = info.lines@;
            let ghost shown = copy@;
            info.lines.push(copy);
            proof {
                assert(views_of(info.lines@) =~= views_of(before).push(shown));
                assert(views_of(info.lines@) =~= views_of(list@).take(j + 1));
            }
            j = j + 1;
        }
        proof {
            assert(views_of(list@).take(j as int) == views_of(list@));
        }
        info.content = content_to_show(sut_db, &contents[f]);
        let mut k: usize = 0;
        while k < configs.len()
            invariant
                k <= configs@.len(),
                info.name@ == display_name(meta.name@),
                info.id == FileId((f + 1) as usize),
                views_of(info.lines@) == views_of(list@),
                info.content@ == shown_content(contents@[f as int]),
                info.unique_lines_covered@ == covered_per_configuration(
                    configs@,
                    meta.unique_line_hits@,
                ).take(k as int),
            decreases configs@.len() - k,
        {
            let c = configs[k].fuzzer_configuration_id;
            let count: u32 = match meta.unique_line_hits.get(&c) {
                Some(n) => *n,
                None => 0,
            };
            info.unique_lines_covered.push((c, count));
            proof {
                assert(info.unique_lines_covered@ =~= covered_per_configuration(
                    configs@,
                    meta.unique_line_hits@,
                ).take(k + 1));
            }
            k = k + 1;
        }
        proof {
            let all = covered_per_configuration(configs@, meta.unique_line_hits@);
            assert(all.take(k as int) == all);
        }
        r.push(info);
        f = f + 1;
    }
    r
}

/// For each source file, its id and the name under which it is shown, in
/// the order of the file ids.
pub fn get_sut_file_id_name_map(data: &AppState) -> (r: Vec<(usize, String)>)
    ensures
        r@.len() == data.sut().files().len(),
        forall|f: int|
            0 <= f < r@.len() ==> (#[trigger] r@[f]).0 == f + 1 && r@[f].1@ == display_name(
                data.sut().files()[f].name@,
            ),
{
    let sut_db = data.get_sut_db();
    let files = sut_db.get_all_file_meta();
    let mut r: Vec<(usize, String)> = Vec::new();
    let mut f: usize = 0;
    while f < files.len()
        invariant
            f <= files@.len(),
            files@ == sut_db.files(),
            *sut_db == data.sut(),
            r@.len() == f,
            forall|g: int|
                0 <= g < f ==> (#[trigger] r@[g]).0 == g + 1 && r@[g].1@ == display_name(
                    data.sut().files()[g].name@,
                ),
        decreases files@.len() - f,
    {
        r.push((f + 1, shown_name(files[f].name.as_str())));
        f = f + 1;
    }
    r
}

/// Which seed of which configuration is to be compared with its
/// descendants.
#[derive(Clone, Copy, Debug, PartialEq, Eq, Structural)]
pub struct CompareSeedsRequest {
    pub fuzzer_configuration_id: u32,
    pub initial_seed_id: u32,
}

/// How often the bytes of a seed changed in its descendants, run by run:
/// an entry gives a byte index and the count from that index on.
#[derive(Debug)]
pub struct InitialSeedComparison {
    pub initial_seed_id: u32,
    pub byte_modification_counts: Vec<(usize, u32)>,
}

/// The indices among the first `n` at which the count differs from the
/// count at the index before, each with its count.
pub open spec fn compressed(counts: Seq<u32>, n: int) -> Seq<(usize, u32)>
    decreases n,
{
    if n <= 1 {
        Seq::empty()
    } else {
        let rest = compressed(counts, n - 1);
        if counts[n - 1] != counts[n - 2] {
            rest.push(((n - 1) as usize, counts[n - 1]))
        } else {
            rest
        }
    }
}

/// The counts of changes per byte index, run by run.
pub fn compress_counts(counts: &Vec<u32>) -> (r: Vec<(usize, u32)>)
    ensures
        r@ == compressed(counts@, counts@.len() as int),
{
    let mut r: Vec<(usize, u32)> = Vec::new();
    if counts.len() == 0 {
        return r;
    }
    let mut i: usize = 1;
    while i < counts.len()
        invariant
            1 <= i <= counts@.len(),
            r@ == compressed(counts@, i as int),
        decreases counts@.len() - i,
    {
        if counts[i] != counts[i - 1] {
            r.push((i, counts[i]));
        }
        i = i + 1;
    }
    r
}

/// How often the bytes of a seed changed in its descendants, run by run.
/// `seed_bytes` holds the bytes of the seed, `children_bytes` those of its
/// descendants in the order in which the lineage index lists them.
pub fn get_inputs_comparison(
    request: &CompareSeedsRequest,
    seed_bytes: &Vec<u8>,
    children_bytes: &Vec<Vec<u8>>,
) -> (r: InitialSeedComparison)
    requires
        children_bytes@.len() <= u32::MAX,
    ensures
        r.initial_seed_id == request.initial_seed_id,
        r.byte_modification_counts@ == compressed(
            change_counts(seed_bytes@, byte_views(children_bytes@)),
            change_counts(seed_bytes@, byte_views(children_bytes@)).len() as int,
        ),
{
    let counts = crate::queries::byte_change_counts(seed_bytes, children_bytes);
    InitialSeedComparison {
        initial_seed_id: request.initial_seed_id,
        byte_modification_counts: compress_counts(&counts),
    }
}

/// The file whose coverage by the initial seeds is asked for.
#[derive(Clone, Copy, Debug, PartialEq, Eq, Structural)]
pub struct InitialSeedsLineCoverageRequest {
    pub file_id: usize,
}

/// The records of the lines of one file that a seed covers.
#[derive(Debug)]
pub struct SeedCoverage {
    pub seed_fuzz_input_id: u32,
    pub lines: Vec<LineMeta>,
}

/// The coverage of one file by the seeds of a configuration.
#[derive(Debug)]
pub struct ConfigurationSeedCoverage {
    pub fuzzer_configuration_id: u32,
    pub seeds: Vec<SeedCoverage>,
}

/// `shown` is the coverage of `file` by the seed with id `s`: the lines
/// covered by the first seed of configuration `c` that carries the same id
/// as the fuzzer gave `s`.
pub open spec fn shows_seed_coverage(
    shown: SeedCoverage,
    data: &AppState,
    c: u32,
    s: InputId,
    file: FileId,
) -> bool {
    let inputs = data.inputs().inputs();
    let f = inputs[s.0 - 1].fuzz_input_id;
    let covered = match first_index(inputs, is_seed_named(c, f), 0) {
        Some(i) => inputs[i].source_line_coverage@,
        None => Seq::empty(),
    };
    &&& shown.seed_fuzz_input_id == f
    &&& views_of(shown.lines@) == lines_in_file(&data.sut(), covered, file, covered.len() as int)
}

/// `shown` is the coverage of `file` by the seeds of configuration `c`, in
/// the order of their ids.
pub open spec fn shows_configuration_coverage(
    shown: ConfigurationSeedCoverage,
    data: &AppState,
    c: u32,
    file: FileId,
) -> bool {
    let inputs = data.inputs().inputs();
    let seeds = select(inputs, true, Some(c), inputs.len() as int);
    &&& shown.fuzzer_configuration_id == c
    &&& shown.seeds@.len() == seeds.len()
    &&& forall|k: int|
        0 <= k < seeds.len() ==> shows_seed_coverage(#[trigger] shown.seeds@[k], data, c, seeds[k], file)
}

/// For each configuration and each of its initial seeds, the records of
/// the lines of one file that the seed covers.
pub fn get_initial_seeds_line_coverage_for_file(
    request: &InitialSeedsLineCoverageRequest,
    data: &AppState,
) -> (r: Vec<ConfigurationSeedCoverage>)
    ensures
        r@.len() == data.inputs().configurations().len(),
        forall|k: int|
            0 <= k < r@.len() ==> shows_configuration_coverage(
                #[trigger] r@[k],
                data,
                data.inputs().configurations()[k].fuzzer_configuration_id,
                FileId(request.file_id),
            ),
{
    let db = data.get_inputs_db();
    let sut_db = data.get_sut_db();
    let configs = db.get_all_fuzzer_configurations();
    let file = FileId(request.file_id);
    let total = db.input_count();
    let mut r: Vec<ConfigurationSeedCoverage> = Vec::new();
    let mut k: usize = 0;
    while k < configs.len()
        invariant
            k <= configs@.len(),
            *db == data.inputs(),
            *sut_db == data.sut(),
            db.inputs().len() <= usize::MAX,
            configs@ == db.configurations(),
            file == FileId(request.file_id),
            r@.len() == k,
            forall|j: int|
                0 <= j < k ==> shows_configuration_coverage(
                    #[trigger] r@[j],
                    data,
                    db.configurations()[j].fuzzer_configuration_id,
                    file,
                ),
        decreases configs@.len() - k,
    {
        let c = configs[k].fuzzer_configuration_id;
        let seeds = db.get_all_initial_seeds_for_fuzzer_id(&c);
        let mut list: Vec<SeedCoverage> = Vec::new();
        let mut i: usize = 0;
        while i < seeds.len()
            invariant
                i <= seeds@.len(),
                *db == data.inputs(),
                *sut_db == data.sut(),
                db.inputs().len() <= usize::MAX,
                seeds@ == select(db.inputs(), true, Some(c), db.inputs().len() as int),
                list@.len() == i,
                forall|j: int|
                    0 <= j < i ==> shows_seed_coverage(#[trigger] list@[j], data, c, seeds@[j], file),
            decreases seeds@.len() - i,
        {
            let f = match db.get_meta(&seeds[i]) {
                Some(m) => m.fuzz_input_id,
                None => 0,
            };
            proof {
                crate::inputs_database::lemma_select_known(
                    db.inputs(),
                    true,
                    Some(c),
                    db.inputs().len() as int,
                    i as int,
                );
            }
            let lines = match db.find_seed(&c, &f) {
                Some(m) => file_coverage(&m.source_line_coverage, &file, sut_db),
                None => {
                    let none: Vec<LineMeta> = Vec::new();
                    proof {
                        assert(views_of(none@) =~= Seq::<LineMetaView>::empty());
                    }
                    none
                },
            };
            list.push(SeedCoverage { seed_fuzz_input_id: f, lines });
            i = i + 1;
        }
        r.push(ConfigurationSeedCoverage { fuzzer_configuration_id: c, seeds: list });
        k = k + 1;
    }
    r
}

/// The descendant of a seed whose coverage of one file is asked for.
#[derive(Clone, Copy, Debug, PartialEq, Eq, Structural)]
pub struct LineCoverageRequest {
    pub fuzzer_configuration_id: u32,
    pub file_id: usize,
    pub initial_seed_id: u32,
    pub child_id: usize,
}

/// The property of an entry to be that of the input `d`.
pub open spec fn is_entry_of(d: InputId) -> spec_fn((InputId, Seq<LineMetaView>)) -> bool {
    |e: (InputId, Seq<LineMetaView>)| e.0 == d
}

/// The coverage that is shown for the descendant named in `request`: the
/// records of the lines of the file that it covers, if it descends from
/// the seed and covers any.
pub open spec fn child_coverage(data: &AppState, request: LineCoverageRequest) -> Option<
    Seq<LineMetaView>,
> {
    let list = data.inputs().children_or_none(
        request.fuzzer_configuration_id,
        request.initial_seed_id,
    );
    let all = coverage_of_each(
        &data.inputs(),
        &data.sut(),
        list,
        FileId(request.file_id),
        list.len() as int,
    );
    match first_index(all, is_entry_of(InputId(request.child_id)), 0) {
        Some(i) => Some(all[i].1),
        None => None,
    }
}

/// The records of the lines of one file that a descendant of a seed
/// covers; `None` if the input does not descend from the seed or covers no
/// line of the file.
pub fn get_line_coverage_for_file(request: &LineCoverageRequest, data: &AppState) -> (r: Option<
    Vec<LineMeta>,
>)
    ensures
        match r {
            Some(lines) => child_coverage(data, *request) == Some(views_of(lines@)),
            None => child_coverage(data, *request) is None,
        },
{
    let db = data.get_inputs_db();
    let sut_db = data.get_sut_db();
    let file = FileId(request.file_id);
    let mut all = db.get_all_children_line_coverage_for_file_id(
        &request.fuzzer_configuration_id,
        &request.initial_seed_id,
        &file,
        sut_db,
    );
    let ghost shown = coverage_views(all@);
    let ghost p = is_entry_of(InputId(request.child_id));
    let ghost list = data.inputs().children_or_none(
        request.fuzzer_configuration_id,
        request.initial_seed_id,
    );
    let mut i: usize = 0;
    while i < all.len()
        invariant
            i <= all@.len(),
            shown == coverage_views(all@),
            shown == coverage_of_each(
                &data.inputs(),
                &data.sut(),
                list,
                FileId(request.file_id),
                list.len() as int,
            ),
            list == data.inputs().children_or_none(
                request.fuzzer_configuration_id,
                request.initial_seed_id,
            ),
            p == is_entry_of(InputId(request.child_id)),
            first_index(shown, p, 0) == first_index(shown, p, i as int),
        decreases all@.len() - i,
    {
        if all[i].0.0 == request.child_id {
            let ghost found = all@[i as int];
            let entry = all.swap_remove(i);
            proof {
                assert(shown[i as int] == (found.0, views_of(found.1@)));
                assert(entry == found);
            }
            return Some(entry.1);
        }
        proof {
            assert(shown[i as int].0 == all@[i as int].0);
        }
        i = i + 1;
    }
    None
}

} // verus!
