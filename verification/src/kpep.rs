//! The kpep (kernel performance event) database.
//!
//! The database files live at `/usr/share/kpep/` and describe all PMC events available on a
//! given CPU. Each file is a binary plist keyed by CPU type/family.

use vstd::prelude::*;

use crate::order::{
    lemma_line_up_exists, lemma_line_up_is, lemma_lined_up_holds_all, lemma_place_next, line_up,
    lined_up, precedes, ranks,
};
use crate::property_list::{
    dictionary_at, document_in, document_tree, entry_trees, get_dictionary, get_text, get_unsigned,
    keys_distinct, lookup, text_at, unsigned_at, ParseFailure, Plist, PlistTree,
};
use crate::text::{
    comes_before, lemma_text_before_asymmetric, lemma_text_before_total,
    lemma_text_before_transitive, parts_lesser_at, same_text, text_before,
};
use crate::xml::last_day_date;

verus! {

/// Why no database could be had.
#[derive(Debug)]
pub enum KpepError {
    /// No database file is there for the CPU.
    DatabaseNotFound { cpu_type: u32, cpu_subtype: u32, cpu_family: u32 },
    /// The file at `path` could not be read.
    ReadError { path: String, source: String },
    /// The file's bytes could not be read as a plist document.
    ParseError(ParseFailure),
    /// The document is not built like a database.
    StructureError(String),
    /// The system did not say which CPU it runs on.
    SysctlError(String),
}

/// An error, in the terms that contracts speak of. Why a document could not be read is left out.
pub enum ErrorModel {
    DatabaseNotFound { cpu_type: u32, cpu_subtype: u32, cpu_family: u32 },
    ReadError { path: Seq<char>, source: Seq<char> },
    ParseError,
    StructureError(Seq<char>),
    SysctlError(Seq<char>),
}

impl View for KpepError {
    type V = ErrorModel;

    open spec fn view(&self) -> ErrorModel {
        match self {
            KpepError::DatabaseNotFound {
                cpu_type,
                cpu_subtype,
                cpu_family,
            } => ErrorModel::DatabaseNotFound {
                cpu_type: *cpu_type,
                cpu_subtype: *cpu_subtype,
                cpu_family: *cpu_family,
            },
            KpepError::ReadError { path, source } => ErrorModel::ReadError {
                path: path@,
                source: source@,
            },
            KpepError::ParseError(_) => ErrorModel::ParseError,
            KpepError::StructureError(what) => ErrorModel::StructureError(what@),
            KpepError::SysctlError(what) => ErrorModel::SysctlError(what@),
        }
    }
}

/// A single PMC event definition from the kpep database.
#[derive(Debug)]
pub struct KpepEvent {
    /// Event name (e.g., "L1D_CACHE_MISS_LD").
    pub name: String,
    /// Human-readable description.
    pub description: String,
    /// PMC event number (the raw selector programmed into the counter config register).
    /// `None` for fixed counters that have no programmable event number.
    pub number: Option<u64>,
    /// Bitmask of which configurable counter slots can count this event.
    /// `None` means any slot.
    pub counters_mask: Option<u64>,
    /// Bitmask of which counters support PC capture (IP sampling) for this event.
    pub pc_capture_counters_mask: Option<u64>,
    /// If this is a fixed counter, its index (0 = cycles, 1 = instructions, etc.).
    pub fixed_counter: Option<u64>,
    /// Fallback event name if this event's fixed counter isn't available.
    pub fallback: Option<String>,
}

/// An event, in the terms that contracts speak of.
pub struct EventModel {
    pub name: Seq<char>,
    pub description: Seq<char>,
    pub number: Option<u64>,
    pub counters_mask: Option<u64>,
    pub pc_capture_counters_mask: Option<u64>,
    pub fixed_counter: Option<u64>,
    pub fallback: Option<Seq<char>>,
}

impl EventModel {
    /// Whether the event is counted by a fixed counter.
    pub open spec fn fixed(self) -> bool {
        self.fixed_counter is Some
    }

    /// Whether the event can be programmed into a counter slot.
    pub open spec fn configurable(self) -> bool {
        self.number is Some && self.fixed_counter is None
    }
}

impl View for KpepEvent {
    type V = EventModel;

    open spec fn view(&self) -> EventModel {
        EventModel {
            name: self.name@,
            description: self.description@,
            number: self.number,
            counters_mask: self.counters_mask,
            pc_capture_counters_mask: self.pc_capture_counters_mask,
            fixed_counter: self.fixed_counter,
            fallback: match self.fallback {
                Some(s) => Some(s@),
                None => None,
            },
        }
    }
}

impl Clone for KpepEvent {
    fn clone(&self) -> (r: Self)
        ensures
            r@ == self@,
    {
        KpepEvent {
            name: self.name.clone(),
            description: self.description.clone(),
            number: self.number,
            counters_mask: self.counters_mask,
            pc_capture_counters_mask: self.pc_capture_counters_mask,
            fixed_counter: self.fixed_counter,
            fallback: match &self.fallback {
                Some(s) => Some(s.clone()),
                None => None,
            },
        }
    }
}

/// The models of events in a row.
pub open spec fn event_models(events: Seq<KpepEvent>) -> Seq<EventModel> {
    events.map_values(|e: KpepEvent| e@)
}

/// The models of events in a row of references.
pub open spec fn models_of(events: Seq<&KpepEvent>) -> Seq<EventModel> {
    events.map_values(|e: &KpepEvent| e@)
}

impl KpepEvent {
    /// Whether this event is a fixed (non-configurable) counter.
    pub fn is_fixed(&self) -> (r: bool)
        ensures
            r == self@.fixed(),
            r == (self.fixed_counter is Some),
    {
        self.fixed_counter.is_some()
    }

    /// Whether this event is configurable (can be programmed into a counter slot).
    pub fn is_configurable(&self) -> (r: bool)
        ensures
            r == self@.configurable(),
            r == (self.number is Some && self.fixed_counter is None),
    {
        self.number.is_some() && self.fixed_counter.is_none()
    }
}

/// CPU metadata from the kpep database.
#[derive(Debug)]
pub struct CpuInfo {
    /// CPU architecture (e.g., "arm64").
    pub architecture: String,
    /// Marketing name (e.g., "Apple M2").
    pub marketing_name: String,
    /// Number of fixed (hardwired) counters.
    pub fixed_counters: u64,
    /// Configurable counter capacity.
    pub config_counters: u64,
    /// Event name aliases (e.g., "Cycles" -> "FIXED_CYCLES"), each with the name it stands for.
    pub aliases: Vec<(String, String)>,
}

/// CPU metadata, in the terms that contracts speak of.
pub struct CpuModel {
    pub architecture: Seq<char>,
    pub marketing_name: Seq<char>,
    pub fixed_counters: u64,
    pub config_counters: u64,
    pub aliases: Seq<(Seq<char>, Seq<char>)>,
}

/// The texts of pairs in a row.
pub open spec fn pair_texts(pairs: Seq<(String, String)>) -> Seq<(Seq<char>, Seq<char>)> {
    pairs.map_values(|p: (String, String)| (p.0@, p.1@))
}

impl View for CpuInfo {
    type V = CpuModel;

    open spec fn view(&self) -> CpuModel {
        CpuModel {
            architecture: self.architecture@,
            marketing_name: self.marketing_name@,
            fixed_counters: self.fixed_counters,
            config_counters: self.config_counters,
            aliases: pair_texts(self.aliases@),
        }
    }
}

impl Clone for CpuInfo {
    fn clone(&self) -> (r: Self)
        ensures
            r@ == self@,
    {
        let mut aliases: Vec<(String, String)> = Vec::new();
        for i in 0..self.aliases.len()
            invariant
                aliases@.len() == i,
                forall|j: int| 0 <= j < i ==> #[trigger] aliases@[j] == self.aliases@[j],
        {
            aliases.push((self.aliases[i].0.clone(), self.aliases[i].1.clone()));
        }
        assert(aliases@ =~= self.aliases@);
        CpuInfo {
            architecture: self.architecture.clone(),
            marketing_name: self.marketing_name.clone(),
            fixed_counters: self.fixed_counters,
            config_counters: self.config_counters,
            aliases,
        }
    }
}

/// Parsed kpep database for a specific CPU.
#[derive(Debug)]
pub struct KpepDatabase {
    /// Database name/identifier.
    pub name: String,
    /// CPU metadata.
    pub cpu: CpuInfo,
    /// All available PMC events.
    events: Vec<KpepEvent>,
}

/// A database, in the terms that contracts speak of.
pub struct DatabaseModel {
    pub name: Seq<char>,
    pub cpu: CpuModel,
    pub events: Seq<EventModel>,
}

impl View for KpepDatabase {
    type V = DatabaseModel;

    closed spec fn view(&self) -> DatabaseModel {
        DatabaseModel {
            name: self.name@,
            cpu: self.cpu@,
            events: event_models(self.events@),
        }
    }
}

/// A text, or another where there is none.
pub open spec fn text_or(s: Option<Seq<char>>, other: Seq<char>) -> Seq<char> {
    match s {
        Some(t) => t,
        None => other,
    }
}

/// A number, or zero where there is none.
pub open spec fn number_or_zero(n: Option<u64>) -> u64 {
    match n {
        Some(k) => k,
        None => 0,
    }
}

/// What is taken from a dictionary's entries, in its order: what `take` makes of each entry, where
/// it makes anything of it.
pub open spec fn taken_from<T>(
    entries: Seq<(Seq<char>, PlistTree)>,
    take: spec_fn(Seq<char>, PlistTree) -> Option<T>,
) -> Seq<T>
    decreases entries.len(),
{
    if entries.len() == 0 {
        Seq::empty()
    } else {
        let before = taken_from(entries.drop_last(), take);
        match take(entries.last().0, entries.last().1) {
            Some(item) => before.push(item),
            None => before,
        }
    }
}

/// The alias that an entry gives: its key, with the name it stands for if that is a string.
pub open spec fn alias_taker() -> spec_fn(Seq<char>, PlistTree) -> Option<(Seq<char>, Seq<char>)> {
    |key: Seq<char>, value: PlistTree|
        match value {
            PlistTree::Text(target) => Some((key, target)),
            _ => None,
        }
}

/// The aliases that a dictionary gives: its entries whose value is a string.
pub open spec fn alias_list(entries: Seq<(Seq<char>, PlistTree)>) -> Seq<(Seq<char>, Seq<char>)> {
    taken_from(entries, alias_taker())
}

/// The event that a dictionary defines under a name.
pub open spec fn event_in(name: Seq<char>, fields: Seq<(Seq<char>, PlistTree)>) -> EventModel {
    EventModel {
        name,
        description: text_or(text_at(fields, "description"@), ""@),
        number: unsigned_at(fields, "number"@),
        counters_mask: unsigned_at(fields, "counters_mask"@),
        pc_capture_counters_mask: unsigned_at(fields, "pc_capture_counters_mask"@),
        fixed_counter: unsigned_at(fields, "fixed_counter"@),
        fallback: text_at(fields, "fallback"@),
    }
}

/// The event that an entry defines, if its value is a dictionary.
pub open spec fn event_taker() -> spec_fn(Seq<char>, PlistTree) -> Option<EventModel> {
    |key: Seq<char>, value: PlistTree|
        match value {
            PlistTree::Dictionary(fields) => Some(event_in(key, fields)),
            _ => None,
        }
}

/// The events that a dictionary defines, in its order: its entries whose value is a dictionary.
pub open spec fn event_list(entries: Seq<(Seq<char>, PlistTree)>) -> Seq<EventModel> {
    taken_from(entries, event_taker())
}

/// The order of events by name.
pub open spec fn by_name(events: Seq<EventModel>) -> spec_fn(int, int) -> bool {
    |a: int, b: int| text_before(events[a].name, events[b].name)
}

/// Events in the order of their names, those of one name in the order they had.
pub open spec fn in_name_order(events: Seq<EventModel>) -> Seq<EventModel> {
    line_up(events.len(), by_name(events)).map_values(|i: int| events[i])
}

/// The CPU metadata in the `cpu` dictionary of a database with the given name.
pub open spec fn cpu_in(name: Seq<char>, cpu: Seq<(Seq<char>, PlistTree)>) -> CpuModel {
    CpuModel {
        architecture: text_or(text_at(cpu, "architecture"@), "unknown"@),
        marketing_name: text_or(text_at(cpu, "marketing_name"@), name),
        fixed_counters: number_or_zero(unsigned_at(cpu, "fixed_counters"@)),
        config_counters: number_or_zero(unsigned_at(cpu, "config_counters"@)),
        aliases: match dictionary_at(cpu, "aliases"@) {
            Some(aliases) => alias_list(aliases),
            None => Seq::empty(),
        },
    }
}

/// The database that a tree describes, or what is amiss with its structure.
pub open spec fn database_in(root: PlistTree) -> Result<DatabaseModel, ErrorModel> {
    match root {
        PlistTree::Dictionary(top) => match dictionary_at(top, "system"@) {
            Some(system) => match dictionary_at(system, "cpu"@) {
                Some(cpu) => match dictionary_at(cpu, "events"@) {
                    Some(events) => {
                        let name = text_or(text_at(top, "name"@), "unknown"@);
                        Ok(
                            DatabaseModel {
                                name,
                                cpu: cpu_in(name, cpu),
                                events: in_name_order(event_list(events)),
                            },
                        )
                    },
                    None => Err(ErrorModel::StructureError("missing system.cpu.events"@)),
                },
                None => Err(ErrorModel::StructureError("missing system.cpu"@)),
            },
            None => Err(ErrorModel::StructureError("missing system"@)),
        },
        _ => Err(ErrorModel::StructureError("root is not a dict"@)),
    }
}

/// The database that a file describes, or what is amiss: it may not be read, hold no document,
/// or hold one that is not built like a database.
pub open spec fn database_in_file(path: Seq<char>, contents: Result<Seq<u8>, Seq<char>>) -> Result<
    DatabaseModel,
    ErrorModel,
> {
    match contents {
        Ok(bytes) => match document_in(bytes) {
            Some(root) => database_in(root),
            None => Err(ErrorModel::ParseError),
        },
        Err(source) => Err(ErrorModel::ReadError { path, source }),
    }
}

/// A result, in the terms that contracts speak of.
pub open spec fn told(r: Result<KpepDatabase, KpepError>) -> Result<DatabaseModel, ErrorModel> {
    match r {
        Ok(db) => Ok(db@),
        Err(e) => Err(e@),
    }
}

/// What reading a file gave, in the terms that contracts speak of.
pub open spec fn contents_of(file: Result<Vec<u8>, String>) -> Result<Seq<u8>, Seq<char>> {
    match file {
        Ok(bytes) => Ok(bytes@),
        Err(reason) => Err(reason@),
    }
}

/// The target of the first alias with the given name, or the name itself if there is none.
pub open spec fn first_target(aliases: Seq<(Seq<char>, Seq<char>)>, name: Seq<char>) -> Seq<char>
    decreases aliases.len(),
{
    if aliases.len() == 0 {
        name
    } else if aliases[0].0 == name {
        aliases[0].1
    } else {
        first_target(aliases.drop_first(), name)
    }
}

/// The first event with the given name.
pub open spec fn first_named(events: Seq<EventModel>, name: Seq<char>) -> Option<EventModel>
    decreases events.len(),
{
    if events.len() == 0 {
        None
    } else if events[0].name == name {
        Some(events[0])
    } else {
        first_named(events.drop_first(), name)
    }
}

impl CpuModel {
    /// The event name that a name stands for.
    pub open spec fn meant(self, name: Seq<char>) -> Seq<char> {
        first_target(self.aliases, name)
    }
}

/// Whether events stand in the order of their names, with no name twice.
pub open spec fn strictly_ordered(events: Seq<EventModel>) -> bool {
    forall|i: int, j: int|
        0 <= i < j < events.len() ==> text_before(
            (#[trigger] events[i]).name,
            (#[trigger] events[j]).name,
        )
}

impl DatabaseModel {
    /// What holds of every database that is read from a document: its events stand in the order
    /// of their names, and no two events have one name, nor two aliases.
    pub open spec fn well_formed(self) -> bool {
        &&& strictly_ordered(self.events)
        &&& forall|i: int, j: int|
            0 <= i < j < self.cpu.aliases.len() ==> (#[trigger] self.cpu.aliases[i]).0 != (
            #[trigger] self.cpu.aliases[j]).0
    }

    /// The event that a name, or an alias, stands for.
    pub open spec fn named(self, name: Seq<char>) -> Option<EventModel> {
        first_named(self.events, self.cpu.meant(name))
    }
}

fn text_or_else(s: Option<&str>, other: &str) -> (r: String)
    ensures
        r@ == text_or(
            match s {
                Some(t) => Some(t@),
                None => None,
            },
            other@,
        ),
{
    match s {
        Some(t) => t.to_owned(),
        None => other.to_owned(),
    }
}

fn read_aliases(entries: &Vec<(String, Plist)>) -> (r: Vec<(String, String)>)
    ensures
        pair_texts(r@) == alias_list(entry_trees(entries@)),
{
    let ghost trees = entry_trees(entries@);
    let mut r: Vec<(String, String)> = Vec::new();
    assert(pair_texts(r@) =~= alias_list(trees.take(0)));
    for i in 0..entries.len()
        invariant
            trees == entry_trees(entries@),
            pair_texts(r@) == alias_list(trees.take(i as int)),
    {
        assert(trees.take(i + 1).drop_last() =~= trees.take(i as int));
        let ghost before = r@;
        if let Some(s) = entries[i].1.as_string() {
            r.push((entries[i].0.clone(), s.to_owned()));
            assert(pair_texts(r@) =~= pair_texts(before).push((entries@[i as int].0@, s@)));
        }
    }
    assert(trees.take(trees.len() as int) =~= trees);
    r
}

fn read_event(name: &String, fields: &Vec<(String, Plist)>) -> (r: KpepEvent)
    ensures
        r@ == event_in(name@, entry_trees(fields@)),
{
    KpepEvent {
        name: name.clone(),
        description: text_or_else(get_text(fields, "description"), ""),
        number: get_unsigned(fields, "number"),
        counters_mask: get_unsigned(fields, "counters_mask"),
        pc_capture_counters_mask: get_unsigned(fields, "pc_capture_counters_mask"),
        fixed_counter: get_unsigned(fields, "fixed_counter"),
        fallback: match get_text(fields, "fallback") {
            Some(s) => Some(s.to_owned()),
            None => None,
        },
    }
}

/// Events are ordered by name as texts are.
pub proof fn lemma_by_name_ranks(events: Seq<EventModel>)
    ensures
        ranks(by_name(events)),
{
    let less = by_name(events);
    assert forall|a: int, b: int| #[trigger] less(a, b) implies !less(b, a) by {
        lemma_text_before_asymmetric(events[a].name, events[b].name);
    }
    assert forall|a: int, b: int, c: int| less(a, c) implies #[trigger] less(a, b)
        || #[trigger] less(b, c) by {
        let (x, y, z) = (events[a].name, events[b].name, events[c].name);
        lemma_text_before_total(x, y);
        if text_before(y, x) {
            lemma_text_before_transitive(y, x, z);
        }
    }
}

/// Where an event belongs among events in the order of their names: behind those of its own
/// name.
fn place_of(sorted: &Vec<KpepEvent>, event: &KpepEvent) -> (r: usize)
    ensures
        r <= sorted@.len(),
        r > 0 ==> !text_before(event@.name, sorted@[r - 1]@.name),
        forall|i: int|
            r <= i < sorted@.len() ==> text_before(event@.name, (#[trigger] sorted@[i])@.name),
{
    let mut r: usize = sorted.len();
    while r > 0 && comes_before(event.name.as_str(), sorted[r - 1].name.as_str())
        invariant
            r <= sorted@.len(),
            forall|i: int|
                r <= i < sorted@.len() ==> text_before(
                    event@.name,
                    (#[trigger] sorted@[i])@.name,
                ),
        decreases r,
    {
        r -= 1;
    }
    r
}

fn read_events(entries: &Vec<(String, Plist)>) -> (r: Vec<KpepEvent>)
    ensures
        event_models(r@) == in_name_order(event_list(entry_trees(entries@))),
{
    let ghost trees = entry_trees(entries@);
    let mut r: Vec<KpepEvent> = Vec::new();
    let ghost mut all: Seq<EventModel> = Seq::empty();
    let ghost mut p: Seq<int> = Seq::empty();
    proof {
        assert(event_list(trees.take(0)) =~= all);
        assert(event_models(r@) =~= p.map_values(|i: int| all[i]));
    }
    for i in 0..entries.len()
        invariant
            trees == entry_trees(entries@),
            all == event_list(trees.take(i as int)),
            lined_up(p, all.len(), by_name(all)),
            event_models(r@) == p.map_values(|i: int| all[i]),
    {
        assert(trees.take(i + 1).drop_last() =~= trees.take(i as int));
        if let Some(fields) = entries[i].1.as_dictionary() {
            let event = read_event(&entries[i].0, fields);
            let at: usize = place_of(&r, &event);
            let ghost now = all.push(event@);
            let ghost n = all.len();
            let ghost sorted = r@;
            proof {
                lemma_by_name_ranks(now);
                let less = by_name(now);
                assert(lined_up(p, n, less)) by {
                    assert forall|i: int, j: int| 0 <= i < j < n implies precedes(
                        less,
                        #[trigger] p[i],
                        #[trigger] p[j],
                    ) by {
                        assert(precedes(by_name(all), p[i], p[j]));
                    }
                }
                assert(event_models(sorted).len() == n);
                assert forall|j: int| 0 <= j < n implies now[#[trigger] p[j]].name
                    == sorted[j]@.name by {
                    assert(event_models(sorted)[j] == all[p[j]]);
                    assert(event_models(sorted)[j] == sorted[j]@);
                    assert(0 <= p[j] < n);
                }
                assert forall|j: int| at <= j < n implies less(n as int, #[trigger] p[j]) by {
                    assert(text_before(event@.name, sorted[j]@.name));
                }
                lemma_place_next(p, n, less, at as int);
            }
            r.insert(at, event);
            proof {
                let q = p.insert(at as int, n as int);
                assert(event_models(r@) =~= q.map_values(|i: int| now[i])) by {
                    assert forall|j: int| 0 <= j < q.len() implies #[trigger] event_models(r@)[j]
                        == now[q[j]] by {
                        if j < at {
                            assert(event_models(sorted)[j] == all[p[j]]);
                        } else if j > at {
                            assert(event_models(sorted)[j - 1] == all[p[j - 1]]);
                        }
                    }
                }
                p = q;
                all = now;
            }
        }
    }
    proof {
        assert(trees.take(trees.len() as int) =~= trees);
        lemma_by_name_ranks(all);
        lemma_line_up_is(p, all.len(), by_name(all));
        assert(event_models(r@) =~= in_name_order(all));
    }
    r
}

impl KpepDatabase {
    /// Reads the database that a plist describes.
    pub fn parse(root: &Plist) -> (r: Result<KpepDatabase, KpepError>)
        ensures
            told(r) == database_in(root@),
            keys_distinct(root@) ==> (r matches Ok(db) ==> db@.well_formed()),
    {
        let dict = match root.as_dictionary() {
            Some(d) => d,
            None => return Err(KpepError::StructureError("root is not a dict".to_owned())),
        };
        let name = text_or_else(get_text(dict, "name"), "unknown");
        let system = match get_dictionary(dict, "system") {
            Some(d) => d,
            None => return Err(KpepError::StructureError("missing system".to_owned())),
        };
        let cpu_dict = match get_dictionary(system, "cpu") {
            Some(d) => d,
            None => return Err(KpepError::StructureError("missing system.cpu".to_owned())),
        };
        let aliases = match get_dictionary(cpu_dict, "aliases") {
            Some(d) => read_aliases(d),
            None => Vec::new(),
        };
        let cpu = CpuInfo {
            architecture: text_or_else(get_text(cpu_dict, "architecture"), "unknown"),
            marketing_name: text_or_else(get_text(cpu_dict, "marketing_name"), name.as_str()),
            fixed_counters: match get_unsigned(cpu_dict, "fixed_counters") {
                Some(n) => n,
                None => 0,
            },
            config_counters: match get_unsigned(cpu_dict, "config_counters") {
                Some(n) => n,
                None => 0,
            },
            aliases,
        };
        let events_dict = match get_dictionary(cpu_dict, "events") {
            Some(d) => d,
            None => return Err(
                KpepError::StructureError("missing system.cpu.events".to_owned()),
            ),
        };
        let events = read_events(events_dict);
        proof {
            if dictionary_at(entry_trees(cpu_dict@), "aliases"@) is None {
                assert(pair_texts(cpu.aliases@) =~= Seq::empty());
            }
        }
        let db = KpepDatabase { name, cpu, events };
        proof {
            assert(database_in(root@) == Ok::<DatabaseModel, ErrorModel>(db@));
            if keys_distinct(root@) {
                lemma_database_well_formed(root@);
            }
        }
        Ok(db)
    }

    /// Load a kpep database from a specific plist file, given what reading the file gave.
    pub fn load_from_path(path: &str, file: Result<Vec<u8>, String>) -> (r: Result<
        KpepDatabase,
        KpepError,
    >)
        ensures
            told(r) == database_in_file(path@, contents_of(file)),
            r matches Ok(db) ==> db@.well_formed(),
            r matches Err(KpepError::ParseError(ParseFailure::LastDay)) <==> (file matches Ok(
                bytes,
            ) && last_day_date(bytes@)),
            file matches Err(reason) ==> (r matches Err(KpepError::ReadError { path: at, source })
                && at@ == path@ && source@ == reason@),
            file matches Ok(bytes) ==> (match document_tree(bytes@) {
                Some(root) => last_day_date(bytes@) || told(r) == database_in(root),
                None => r matches Err(KpepError::ParseError(_)),
            }),
    {
        match file {
            Ok(bytes) => match Plist::from_bytes(bytes.as_slice()) {
                Ok(root) => Self::parse(&root),
                Err(e) => Err(KpepError::ParseError(e)),
            },
            Err(source) => Err(KpepError::ReadError { path: path.to_owned(), source }),
        }
    }

    /// The database's name.
    pub fn name(&self) -> (r: &str)
        ensures
            r@ == self@.name,
    {
        self.name.as_str()
    }

    /// The CPU metadata.
    pub fn cpu_info(&self) -> (r: &CpuInfo)
        ensures
            r@ == self@.cpu,
    {
        &self.cpu
    }

    /// All events in the database.
    pub fn events(&self) -> (r: &[KpepEvent])
        ensures
            event_models(r@) == self@.events,
    {
        self.events.as_slice()
    }

    fn event_refs(&self) -> (r: Vec<&KpepEvent>)
        ensures
            models_of(r@) == self@.events,
    {
        let mut r: Vec<&KpepEvent> = Vec::new();
        for i in 0..self.events.len()
            invariant
                models_of(r@) == event_models(self.events@).take(i as int),
        {
            let ghost before = r@;
            r.push(&self.events[i]);
            assert(models_of(r@) =~= models_of(before).push(self.events@[i as int]@));
        }
        assert(models_of(r@) =~= event_models(self.events@));
        r
    }

    /// Only configurable (non-fixed) events.
    pub fn configurable_events(&self) -> (r: Vec<&KpepEvent>)
        ensures
            models_of(r@) == self@.events.filter(|e: EventModel| e.configurable()),
    {
        let test = |e: &KpepEvent| -> (kept: bool)
            ensures
                kept == e@.configurable(),
        {
            e.is_configurable()
        };
        keep_events(
            self.event_refs().as_slice(),
            test,
            Ghost(|e: EventModel| e.configurable()),
        )
    }

    /// Only fixed counter events.
    pub fn fixed_events(&self) -> (r: Vec<&KpepEvent>)
        ensures
            models_of(r@) == self@.events.filter(|e: EventModel| e.fixed()),
    {
        let test = |e: &KpepEvent| -> (kept: bool)
            ensures
                kept == e@.fixed(),
        {
            e.is_fixed()
        };
        keep_events(
            self.event_refs().as_slice(),
            test,
            Ghost(|e: EventModel| e.fixed()),
        )
    }

    /// Look up an event by name.
    ///
    /// An alias is looked up under the name it stands for.
    pub fn event_by_name(&self, name: &str) -> (r: Option<&KpepEvent>)
        ensures
            r is Some <==> self@.named(name@) is Some,
            r matches Some(e) ==> self@.named(name@) == Some(e@),
    {
        let resolved = resolve(&self.cpu.aliases, name);
        let ghost all = self@.events;
        assert(all.skip(0) =~= all);
        for i in 0..self.events.len()
            invariant
                all == event_models(self.events@),
                self@.events == all,
                resolved@ == self@.cpu.meant(name@),
                first_named(all, resolved@) == first_named(all.skip(i as int), resolved@),
        {
            assert(all.skip(i as int).drop_first() =~= all.skip(i + 1));
            assert(all.skip(i as int)[0] == self.events@[i as int]@);
            if same_text(self.events[i].name.as_str(), resolved) {
                return Some(&self.events[i]);
            }
        }
        None
    }
}

/// Keeps the events that pass a test, in their order.
pub(crate) fn keep_events<'a, F: Fn(&KpepEvent) -> bool>(
    events: &[&'a KpepEvent],
    test: F,
    Ghost(wanted): Ghost<spec_fn(EventModel) -> bool>,
) -> (r: Vec<&'a KpepEvent>)
    requires
        forall|e: &KpepEvent| #[trigger] call_requires(test, (e,)),
        forall|e: &KpepEvent, kept: bool| #[trigger]
            call_ensures(test, (e,), kept) ==> kept == wanted(e@),
    ensures
        models_of(r@) == models_of(events@).filter(wanted),
{
    let ghost all = models_of(events@);
    let mut r: Vec<&'a KpepEvent> = Vec::new();
    assert(models_of(r@) =~= all.take(0).filter(wanted)) by {
        reveal(Seq::filter);
    }
    for i in 0..events.len()
        invariant
            all == models_of(events@),
            forall|e: &KpepEvent| #[trigger] call_requires(test, (e,)),
            forall|e: &KpepEvent, kept: bool| #[trigger]
                call_ensures(test, (e,), kept) ==> kept == wanted(e@),
            models_of(r@) == all.take(i as int).filter(wanted),
    {
        let ghost before = r@;
        proof {
            reveal(Seq::filter);
            assert(all.take(i + 1).drop_last() =~= all.take(i as int));
            assert(all.take(i + 1).last() == events@[i as int]@);
        }
        if test(events[i]) {
            r.push(events[i]);
            assert(models_of(r@) =~= models_of(before).push(events@[i as int]@));
        }
    }
    assert(all.take(all.len() as int) =~= all);
    r
}

/// The name that `name` stands for, or `name` itself if it is no alias.
fn resolve<'a>(aliases: &'a Vec<(String, String)>, name: &'a str) -> (r: &'a str)
    ensures
        r@ == first_target(pair_texts(aliases@), name@),
{
    let ghost all = pair_texts(aliases@);
    assert(all.skip(0) =~= all);
    for i in 0..aliases.len()
        invariant
            all == pair_texts(aliases@),
            first_target(all, name@) == first_target(all.skip(i as int), name@),
    {
        assert(all.skip(i as int).drop_first() =~= all.skip(i + 1));
        assert(all.skip(i as int)[0] == (aliases@[i as int].0@, aliases@[i as int].1@));
        if same_text(aliases[i].0.as_str(), name) {
            return aliases[i].1.as_str();
        }
    }
    name
}

/// No event is both fixed and configurable.
pub proof fn lemma_fixed_not_configurable(event: EventModel)
    ensures
        !(event.fixed() && event.configurable()),
{
}

/// Ordering events by name keeps them all: each event stands at one place of the order, and no
/// other events do.
pub proof fn lemma_name_order_keeps_events(events: Seq<EventModel>)
    ensures
        in_name_order(events).len() == events.len(),
        forall|e: EventModel| in_name_order(events).contains(e) <==> events.contains(e),
        lined_up(line_up(events.len(), by_name(events)), events.len(), by_name(events)),
{
    let less = by_name(events);
    let p = line_up(events.len(), less);
    let sorted = in_name_order(events);
    lemma_by_name_ranks(events);
    lemma_line_up_exists(events.len(), less);
    lemma_lined_up_holds_all(p, events.len(), less);
    assert forall|e: EventModel| sorted.contains(e) implies events.contains(e) by {
        let i = choose|i: int| 0 <= i < sorted.len() && sorted[i] == e;
        assert(events[p[i]] == e);
    }
    assert forall|e: EventModel| events.contains(e) implies sorted.contains(e) by {
        let a = choose|a: int| 0 <= a < events.len() && events[a] == e;
        assert(p.contains(a));
        let i = choose|i: int| 0 <= i < p.len() && p[i] == a;
        assert(sorted[i] == e);
    }
}

/// The events of a database stand in the order of their names.
pub proof fn lemma_database_in_name_order(root: PlistTree, i: int, j: int)
    requires
        database_in(root) matches Ok(m) && 0 <= i < j < m.events.len(),
    ensures
        !text_before(database_in(root)->Ok_0.events[j].name, database_in(root)->Ok_0.events[i].name),
{
    let cpu = dictionary_at(
        dictionary_at(root->Dictionary_0, "system"@)->Some_0,
        "cpu"@,
    )->Some_0;
    let events = event_list(dictionary_at(cpu, "events"@)->Some_0);
    let m = database_in(root)->Ok_0;
    let p = line_up(events.len(), by_name(events));
    assert(m.events == in_name_order(events));
    lemma_name_order_keeps_events(events);
    lemma_by_name_ranks(events);
    assert(precedes(by_name(events), p[i], p[j]));
    assert(m.events[i] == events[p[i]] && m.events[j] == events[p[j]]);
    lemma_text_before_asymmetric(m.events[i].name, m.events[j].name);
}

/// Whether no two entries have the same key.
pub open spec fn distinct_keys(entries: Seq<(Seq<char>, PlistTree)>) -> bool {
    forall|i: int, j: int|
        0 <= i < j < entries.len() ==> (#[trigger] entries[i]).0 != (#[trigger] entries[j]).0
}

/// Whether an item is what is made of the entry at `i`.
pub open spec fn made_of<T>(
    entries: Seq<(Seq<char>, PlistTree)>,
    take: spec_fn(Seq<char>, PlistTree) -> Option<T>,
    i: int,
    item: T,
) -> bool {
    0 <= i < entries.len() && take(entries[i].0, entries[i].1) == Some(item)
}

proof fn lemma_taken_from<T>(
    entries: Seq<(Seq<char>, PlistTree)>,
    take: spec_fn(Seq<char>, PlistTree) -> Option<T>,
)
    ensures
        forall|item: T| #[trigger]
            taken_from(entries, take).contains(item) ==> exists|i: int|
                #[trigger] made_of(entries, take, i, item),
        forall|i: int, item: T| #[trigger]
            made_of(entries, take, i, item) ==> taken_from(entries, take).contains(item),
    decreases entries.len(),
{
    if entries.len() > 0 {
        let init = entries.drop_last();
        let end = entries.len() - 1;
        let before = taken_from(init, take);
        let now = taken_from(entries, take);
        lemma_taken_from(init, take);
        assert forall|item: T| #[trigger] now.contains(item) implies exists|i: int|
            #[trigger] made_of(entries, take, i, item) by {
            if before.contains(item) {
                let i = choose|i: int| #[trigger] made_of(init, take, i, item);
                assert(made_of(entries, take, i, item));
            } else {
                let a = choose|a: int| 0 <= a < now.len() && now[a] == item;
                if a < before.len() {
                    assert(before[a] == item);
                }
                assert(made_of(entries, take, end, item));
            }
        }
        assert forall|i: int, item: T| #[trigger] made_of(
            entries,
            take,
            i,
            item,
        ) implies now.contains(item) by {
            if i < end {
                assert(made_of(init, take, i, item));
                let a = choose|a: int| 0 <= a < before.len() && before[a] == item;
                assert(now[a] == item);
            } else {
                assert(now[before.len() as int] == item);
            }
        }
    }
}

proof fn lemma_taken_names<T>(
    entries: Seq<(Seq<char>, PlistTree)>,
    take: spec_fn(Seq<char>, PlistTree) -> Option<T>,
    name: spec_fn(T) -> Seq<char>,
)
    requires
        distinct_keys(entries),
        forall|key: Seq<char>, value: PlistTree|
            (#[trigger] take(key, value)) matches Some(item) ==> name(item) == key,
    ensures
        forall|a: int, b: int|
            0 <= a < b < taken_from(entries, take).len() ==> name(
                #[trigger] taken_from(entries, take)[a],
            ) != name(#[trigger] taken_from(entries, take)[b]),
    decreases entries.len(),
{
    if entries.len() > 0 {
        let init = entries.drop_last();
        let end = entries.len() - 1;
        let before = taken_from(init, take);
        let now = taken_from(entries, take);
        assert(distinct_keys(init)) by {
            assert forall|i: int, j: int| 0 <= i < j < init.len() implies (#[trigger] init[i]).0
                != (#[trigger] init[j]).0 by {
                assert(entries[i].0 != entries[j].0);
            }
        }
        lemma_taken_names(init, take, name);
        lemma_taken_from(init, take);
        assert forall|a: int, b: int| 0 <= a < b < now.len() implies name(#[trigger] now[a])
            != name(#[trigger] now[b]) by {
            assert(now[a] == before[a]);
            if b < before.len() {
                assert(now[b] == before[b]);
            } else {
                assert(before.contains(before[a]));
                let i = choose|i: int| #[trigger] made_of(init, take, i, before[a]);
                assert(name(before[a]) == init[i].0);
                assert(entries[i].0 != entries[end].0);
            }
        }
    }
}

proof fn lemma_event_list_names(entries: Seq<(Seq<char>, PlistTree)>)
    requires
        distinct_keys(entries),
    ensures
        forall|a: int, b: int|
            0 <= a < b < event_list(entries).len() ==> (#[trigger] event_list(entries)[a]).name != (
            #[trigger] event_list(entries)[b]).name,
{
    let name = |e: EventModel| e.name;
    lemma_taken_names(entries, event_taker(), name);
    assert forall|a: int, b: int| 0 <= a < b < event_list(entries).len() implies (
    #[trigger] event_list(entries)[a]).name != (#[trigger] event_list(entries)[b]).name by {
        assert(name(event_list(entries)[a]) != name(event_list(entries)[b]));
    }
}

proof fn lemma_alias_list_names(entries: Seq<(Seq<char>, PlistTree)>)
    requires
        distinct_keys(entries),
    ensures
        forall|a: int, b: int|
            0 <= a < b < alias_list(entries).len() ==> (#[trigger] alias_list(entries)[a]).0 != (
            #[trigger] alias_list(entries)[b]).0,
{
    let name = |p: (Seq<char>, Seq<char>)| p.0;
    lemma_taken_names(entries, alias_taker(), name);
    assert forall|a: int, b: int| 0 <= a < b < alias_list(entries).len() implies (
    #[trigger] alias_list(entries)[a]).0 != (#[trigger] alias_list(entries)[b]).0 by {
        assert(name(alias_list(entries)[a]) != name(alias_list(entries)[b]));
    }
}

proof fn lemma_lookup_found(entries: Seq<(Seq<char>, PlistTree)>, key: Seq<char>)
    requires
        lookup(entries, key) is Some,
    ensures
        exists|i: int|
            0 <= i < entries.len() && (#[trigger] entries[i]).0 == key && lookup(entries, key)
                == Some(entries[i].1),
    decreases entries.len(),
{
    if entries[0].0 != key {
        let rest = entries.drop_first();
        lemma_lookup_found(rest, key);
        let i = choose|i: int|
            0 <= i < rest.len() && (#[trigger] rest[i]).0 == key && lookup(rest, key) == Some(
                rest[i].1,
            );
        assert(entries[i + 1] == rest[i]);
    }
}

proof fn lemma_lookup_is(entries: Seq<(Seq<char>, PlistTree)>, i: int)
    requires
        distinct_keys(entries),
        0 <= i < entries.len(),
    ensures
        lookup(entries, entries[i].0) == Some(entries[i].1),
    decreases i,
{
    if i > 0 {
        let rest = entries.drop_first();
        assert(entries[0].0 != entries[i].0);
        assert(distinct_keys(rest)) by {
            assert forall|a: int, b: int| 0 <= a < b < rest.len() implies (#[trigger] rest[a]).0
                != (#[trigger] rest[b]).0 by {
                assert(entries[a + 1].0 != entries[b + 1].0);
            }
        }
        assert(rest[i - 1] == entries[i]);
        lemma_lookup_is(rest, i - 1);
    }
}

proof fn lemma_dictionary_at_distinct(entries: Seq<(Seq<char>, PlistTree)>, key: Seq<char>)
    requires
        keys_distinct(PlistTree::Dictionary(entries)),
        dictionary_at(entries, key) is Some,
    ensures
        keys_distinct(PlistTree::Dictionary(dictionary_at(entries, key)->Some_0)),
{
    lemma_lookup_found(entries, key);
    let i = choose|i: int|
        0 <= i < entries.len() && (#[trigger] entries[i]).0 == key && lookup(entries, key) == Some(
            entries[i].1,
        );
    let whole = PlistTree::Dictionary(entries);
    reveal_with_fuel(keys_distinct, 2);
    assert(keys_distinct(whole->Dictionary_0[i].1));
}

proof fn lemma_name_order_strict(events: Seq<EventModel>)
    requires
        forall|a: int, b: int|
            0 <= a < b < events.len() ==> (#[trigger] events[a]).name != (
            #[trigger] events[b]).name,
    ensures
        strictly_ordered(in_name_order(events)),
{
    let sorted = in_name_order(events);
    let p = line_up(events.len(), by_name(events));
    lemma_name_order_keeps_events(events);
    lemma_by_name_ranks(events);
    lemma_lined_up_holds_all(p, events.len(), by_name(events));
    assert forall|i: int, j: int| 0 <= i < j < sorted.len() implies text_before(
        (#[trigger] sorted[i]).name,
        (#[trigger] sorted[j]).name,
    ) by {
        assert(sorted[i] == events[p[i]] && sorted[j] == events[p[j]]);
        assert(p[i] != p[j]);
        if p[i] < p[j] {
            assert(events[p[i]].name != events[p[j]].name);
        } else {
            assert(events[p[j]].name != events[p[i]].name);
        }
        assert(precedes(by_name(events), p[i], p[j]));
        lemma_text_before_total(sorted[i].name, sorted[j].name);
    }
}

/// A database read from a document is well-formed, since no dictionary of a document has a key
/// twice.
pub proof fn lemma_database_well_formed(root: PlistTree)
    requires
        keys_distinct(root),
        database_in(root) is Ok,
    ensures
        database_in(root)->Ok_0.well_formed(),
{
    let top = root->Dictionary_0;
    let system = dictionary_at(top, "system"@)->Some_0;
    let cpu = dictionary_at(system, "cpu"@)->Some_0;
    let entries = dictionary_at(cpu, "events"@)->Some_0;
    let m = database_in(root)->Ok_0;
    lemma_dictionary_at_distinct(top, "system"@);
    lemma_dictionary_at_distinct(system, "cpu"@);
    lemma_dictionary_at_distinct(cpu, "events"@);
    lemma_event_list_names(entries);
    let events = event_list(entries);
    lemma_name_order_strict(events);
    if dictionary_at(cpu, "aliases"@) is Some {
        lemma_dictionary_at_distinct(cpu, "aliases"@);
        lemma_alias_list_names(dictionary_at(cpu, "aliases"@)->Some_0);
    }
}

/// The first event with a name is the one that no other with that name stands before.
pub proof fn lemma_first_named_is(events: Seq<EventModel>, k: int)
    requires
        0 <= k < events.len(),
        forall|i: int| 0 <= i < k ==> (#[trigger] events[i]).name != events[k].name,
    ensures
        first_named(events, events[k].name) == Some(events[k]),
    decreases k,
{
    if k > 0 {
        let rest = events.drop_first();
        assert(events[0].name != events[k].name);
        assert(rest[k - 1] == events[k]);
        assert forall|i: int| 0 <= i < k - 1 implies (#[trigger] rest[i]).name != rest[k - 1].name by {
            assert(events[i + 1].name != events[k].name);
        }
        lemma_first_named_is(rest, k - 1);
    }
}

proof fn lemma_first_target_is(aliases: Seq<(Seq<char>, Seq<char>)>, k: int)
    requires
        0 <= k < aliases.len(),
        forall|i: int| 0 <= i < k ==> (#[trigger] aliases[i]).0 != aliases[k].0,
    ensures
        first_target(aliases, aliases[k].0) == aliases[k].1,
    decreases k,
{
    if k > 0 {
        let rest = aliases.drop_first();
        assert(aliases[0].0 != aliases[k].0);
        assert(rest[k - 1] == aliases[k]);
        assert forall|i: int| 0 <= i < k - 1 implies (#[trigger] rest[i]).0 != rest[k - 1].0 by {
            assert(aliases[i + 1].0 != aliases[k].0);
        }
        lemma_first_target_is(rest, k - 1);
    }
}

proof fn lemma_no_target(aliases: Seq<(Seq<char>, Seq<char>)>, name: Seq<char>)
    requires
        forall|i: int| 0 <= i < aliases.len() ==> (#[trigger] aliases[i]).0 != name,
    ensures
        first_target(aliases, name) == name,
    decreases aliases.len(),
{
    if aliases.len() > 0 {
        assert(aliases[0].0 != name);
        assert forall|i: int| 0 <= i < aliases.len() - 1 implies (
        #[trigger] aliases.drop_first()[i]).0 != name by {
            assert(aliases[i + 1].0 != name);
        }
        lemma_no_target(aliases.drop_first(), name);
    }
}

proof fn lemma_names_differ(db: DatabaseModel, k: int)
    requires
        db.well_formed(),
        0 <= k < db.events.len(),
    ensures
        forall|i: int| 0 <= i < k ==> (#[trigger] db.events[i]).name != db.events[k].name,
{
    assert forall|i: int| 0 <= i < k implies (#[trigger] db.events[i]).name
        != db.events[k].name by {
        lemma_text_before_asymmetric(db.events[i].name, db.events[k].name);
    }
}

/// Every event of a database is found under its name, unless that name is an alias.
pub proof fn lemma_event_found_by_name(db: DatabaseModel, k: int)
    requires
        db.well_formed(),
        0 <= k < db.events.len(),
        forall|i: int|
            0 <= i < db.cpu.aliases.len() ==> (#[trigger] db.cpu.aliases[i]).0
                != db.events[k].name,
    ensures
        db.named(db.events[k].name) == Some(db.events[k]),
{
    lemma_no_target(db.cpu.aliases, db.events[k].name);
    lemma_names_differ(db, k);
    lemma_first_named_is(db.events, k);
}

/// An alias finds the event under the name it stands for.
pub proof fn lemma_event_found_by_alias(db: DatabaseModel, a: int, k: int)
    requires
        db.well_formed(),
        0 <= a < db.cpu.aliases.len(),
        0 <= k < db.events.len(),
        db.cpu.aliases[a].1 == db.events[k].name,
    ensures
        db.named(db.cpu.aliases[a].0) == Some(db.events[k]),
{
    lemma_first_target_is(db.cpu.aliases, a);
    lemma_names_differ(db, k);
    lemma_first_named_is(db.events, k);
}

/// Only events of the database are found, and only under their own name or an alias for it.
pub proof fn lemma_found_event_is_meant(db: DatabaseModel, name: Seq<char>)
    ensures
        db.named(name) matches Some(event) ==> db.events.contains(event) && event.name
            == db.cpu.meant(name),
        db.named(name) is None ==> forall|k: int|
            0 <= k < db.events.len() ==> (#[trigger] db.events[k]).name != db.cpu.meant(name),
{
    lemma_first_named(db.events, db.cpu.meant(name));
}

/// The first event with a name is one of the events, and there is none only if no event has it.
pub proof fn lemma_first_named(events: Seq<EventModel>, name: Seq<char>)
    ensures
        first_named(events, name) matches Some(event) ==> events.contains(event) && event.name
            == name,
        first_named(events, name) is None ==> forall|k: int|
            0 <= k < events.len() ==> (#[trigger] events[k]).name != name,
    decreases events.len(),
{
    if events.len() > 0 && events[0].name != name {
        let rest = events.drop_first();
        lemma_first_named(rest, name);
        if let Some(event) = first_named(rest, name) {
            let k = choose|k: int| 0 <= k < rest.len() && rest[k] == event;
            assert(events[k + 1] == event);
        } else {
            assert forall|k: int| 0 <= k < events.len() implies (#[trigger] events[k]).name
                != name by {
                if k > 0 {
                    assert(rest[k - 1].name != name);
                }
            }
        }
    }
}

/// The event that a dictionary of events defines under a name.
pub open spec fn event_at(entries: Seq<(Seq<char>, PlistTree)>, name: Seq<char>) -> Option<
    EventModel,
> {
    match dictionary_at(entries, name) {
        Some(fields) => Some(event_in(name, fields)),
        None => None,
    }
}

/// The entries of a dictionary, or none where there is no dictionary.
pub open spec fn entries_or_none(d: Option<Seq<(Seq<char>, PlistTree)>>) -> Seq<
    (Seq<char>, PlistTree),
> {
    match d {
        Some(entries) => entries,
        None => Seq::empty(),
    }
}

/// Whether two dictionaries define the same events: under each name the same one, or none.
pub open spec fn same_events(a: Seq<(Seq<char>, PlistTree)>, b: Seq<(Seq<char>, PlistTree)>) -> bool {
    forall|name: Seq<char>| #[trigger] event_at(a, name) == event_at(b, name)
}

/// Whether two dictionaries give the same aliases: under each name the same one, or none.
pub open spec fn same_aliases(a: Seq<(Seq<char>, PlistTree)>, b: Seq<(Seq<char>, PlistTree)>) -> bool {
    forall|name: Seq<char>| #[trigger] text_at(a, name) == text_at(b, name)
}

/// Whether the same is found in two `cpu` dictionaries.
pub open spec fn same_cpu(a: Seq<(Seq<char>, PlistTree)>, b: Seq<(Seq<char>, PlistTree)>) -> bool {
    &&& text_at(a, "architecture"@) == text_at(b, "architecture"@)
    &&& text_at(a, "marketing_name"@) == text_at(b, "marketing_name"@)
    &&& unsigned_at(a, "fixed_counters"@) == unsigned_at(b, "fixed_counters"@)
    &&& unsigned_at(a, "config_counters"@) == unsigned_at(b, "config_counters"@)
    &&& same_aliases(
        entries_or_none(dictionary_at(a, "aliases"@)),
        entries_or_none(dictionary_at(b, "aliases"@)),
    )
    &&& match (dictionary_at(a, "events"@), dictionary_at(b, "events"@)) {
        (Some(x), Some(y)) => same_events(x, y),
        (None, None) => true,
        _ => false,
    }
}

/// Whether the same is found in two trees wherever a database is looked for in them. The order
/// of keys, entries that are no event or no alias, and keys that mean nothing play no part in it.
pub open spec fn same_finds(a: PlistTree, b: PlistTree) -> bool {
    match (a, b) {
        (PlistTree::Dictionary(x), PlistTree::Dictionary(y)) => {
            &&& text_at(x, "name"@) == text_at(y, "name"@)
            &&& match (dictionary_at(x, "system"@), dictionary_at(y, "system"@)) {
                (Some(s), Some(t)) => match (dictionary_at(s, "cpu"@), dictionary_at(t, "cpu"@)) {
                    (Some(c), Some(d)) => same_cpu(c, d),
                    (None, None) => true,
                    _ => false,
                },
                (None, None) => true,
                _ => false,
            }
        },
        (PlistTree::Dictionary(_), _) => false,
        (_, PlistTree::Dictionary(_)) => false,
        _ => true,
    }
}

/// Whether two CPUs are the same, their aliases being the same as a map.
pub open spec fn same_cpu_data(a: CpuModel, b: CpuModel) -> bool {
    &&& a.architecture == b.architecture
    &&& a.marketing_name == b.marketing_name
    &&& a.fixed_counters == b.fixed_counters
    &&& a.config_counters == b.config_counters
    &&& forall|alias: (Seq<char>, Seq<char>)| #[trigger]
        a.aliases.contains(alias) <==> b.aliases.contains(alias)
    &&& forall|name: Seq<char>| #[trigger] a.meant(name) == b.meant(name)
}

/// Whether two results are the same: one error, or databases with the same name, CPU and events.
pub open spec fn same_database(
    a: Result<DatabaseModel, ErrorModel>,
    b: Result<DatabaseModel, ErrorModel>,
) -> bool {
    match (a, b) {
        (Ok(x), Ok(y)) => x.name == y.name && same_cpu_data(x.cpu, y.cpu) && x.events == y.events,
        (Err(x), Err(y)) => x == y,
        _ => false,
    }
}

proof fn lemma_event_list_holds(entries: Seq<(Seq<char>, PlistTree)>)
    requires
        distinct_keys(entries),
    ensures
        forall|e: EventModel| #[trigger]
            event_list(entries).contains(e) <==> event_at(entries, e.name) == Some(e),
{
    let take = event_taker();
    lemma_taken_from(entries, take);
    assert forall|e: EventModel| #[trigger] event_list(entries).contains(e) <==> event_at(
        entries,
        e.name,
    ) == Some(e) by {
        if event_list(entries).contains(e) {
            let i = choose|i: int| #[trigger] made_of(entries, take, i, e);
            lemma_lookup_is(entries, i);
        }
        if event_at(entries, e.name) == Some(e) {
            lemma_lookup_found(entries, e.name);
            let i = choose|i: int|
                0 <= i < entries.len() && (#[trigger] entries[i]).0 == e.name && lookup(
                    entries,
                    e.name,
                ) == Some(entries[i].1);
            assert(made_of(entries, take, i, e));
        }
    }
}

proof fn lemma_alias_list_holds(entries: Seq<(Seq<char>, PlistTree)>)
    requires
        distinct_keys(entries),
    ensures
        forall|alias: (Seq<char>, Seq<char>)| #[trigger]
            alias_list(entries).contains(alias) <==> text_at(entries, alias.0) == Some(alias.1),
        forall|name: Seq<char>| #[trigger]
            first_target(alias_list(entries), name) == text_or(text_at(entries, name), name),
{
    let take = alias_taker();
    let aliases = alias_list(entries);
    lemma_taken_from(entries, take);
    assert forall|alias: (Seq<char>, Seq<char>)| #[trigger] aliases.contains(alias) <==> text_at(
        entries,
        alias.0,
    ) == Some(alias.1) by {
        if aliases.contains(alias) {
            let i = choose|i: int| #[trigger] made_of(entries, take, i, alias);
            lemma_lookup_is(entries, i);
        }
        if text_at(entries, alias.0) == Some(alias.1) {
            lemma_lookup_found(entries, alias.0);
            let i = choose|i: int|
                0 <= i < entries.len() && (#[trigger] entries[i]).0 == alias.0 && lookup(
                    entries,
                    alias.0,
                ) == Some(entries[i].1);
            assert(made_of(entries, take, i, alias));
        }
    }
    lemma_alias_list_names(entries);
    assert forall|name: Seq<char>| #[trigger] first_target(aliases, name) == text_or(
        text_at(entries, name),
        name,
    ) by {
        match text_at(entries, name) {
            Some(target) => {
                assert(aliases.contains((name, target)));
                let k = choose|k: int| 0 <= k < aliases.len() && aliases[k] == (name, target);
                lemma_first_target_is(aliases, k);
            },
            None => {
                assert forall|i: int| 0 <= i < aliases.len() implies (#[trigger] aliases[i]).0
                    != name by {
                    assert(aliases.contains(aliases[i]));
                }
                lemma_no_target(aliases, name);
            },
        }
    }
}

proof fn lemma_strictly_ordered_unique(a: Seq<EventModel>, b: Seq<EventModel>)
    requires
        strictly_ordered(a),
        strictly_ordered(b),
        forall|e: EventModel| #[trigger] a.contains(e) <==> b.contains(e),
    ensures
        a == b,
    decreases a.len(),
{
    if a.len() == 0 {
        if b.len() > 0 {
            assert(b.contains(b[0]));
            assert(a.contains(b[0]));
        }
        assert(a =~= b);
    } else {
        assert(a.contains(a[0]));
        let j = choose|j: int| 0 <= j < b.len() && b[j] == a[0];
        assert(b.contains(b[0]));
        assert(a.contains(b[0]));
        let i = choose|i: int| 0 <= i < a.len() && a[i] == b[0];
        if j > 0 {
            assert(text_before(b[0].name, b[j].name));
            if i > 0 {
                assert(text_before(a[0].name, a[i].name));
            }
            lemma_text_before_asymmetric(a[0].name, b[0].name);
        }
        let x = a.drop_first();
        let y = b.drop_first();
        lemma_rest_holds(a);
        lemma_rest_holds(b);
        assert forall|e: EventModel| #[trigger] x.contains(e) <==> y.contains(e) by {
            assert(a.contains(e) <==> b.contains(e));
        }
        lemma_strictly_ordered_unique(x, y);
        assert(a =~= seq![a[0]] + x);
        assert(b =~= seq![b[0]] + y);
    }
}

proof fn lemma_rest_holds(a: Seq<EventModel>)
    requires
        strictly_ordered(a),
        a.len() > 0,
    ensures
        strictly_ordered(a.drop_first()),
        forall|e: EventModel| #[trigger]
            a.drop_first().contains(e) <==> a.contains(e) && e != a[0],
{
    let x = a.drop_first();
    assert forall|i: int, j: int| 0 <= i < j < x.len() implies text_before(
        (#[trigger] x[i]).name,
        (#[trigger] x[j]).name,
    ) by {
        assert(text_before(a[i + 1].name, a[j + 1].name));
    }
    assert forall|e: EventModel| #[trigger] x.contains(e) <==> a.contains(e) && e != a[0] by {
        if x.contains(e) {
            let i = choose|i: int| 0 <= i < x.len() && x[i] == e;
            assert(a[i + 1] == e);
            assert(text_before(a[0].name, a[i + 1].name));
            lemma_text_before_asymmetric(a[0].name, e.name);
        }
        if a.contains(e) && e != a[0] {
            let i = choose|i: int| 0 <= i < a.len() && a[i] == e;
            assert(x[i - 1] == e);
        }
    }
}

proof fn lemma_same_event_lists(
    a: Seq<(Seq<char>, PlistTree)>,
    b: Seq<(Seq<char>, PlistTree)>,
)
    requires
        distinct_keys(a),
        distinct_keys(b),
        same_events(a, b),
    ensures
        in_name_order(event_list(a)) == in_name_order(event_list(b)),
{
    let x = in_name_order(event_list(a));
    let y = in_name_order(event_list(b));
    lemma_event_list_names(a);
    lemma_event_list_names(b);
    lemma_name_order_strict(event_list(a));
    lemma_name_order_strict(event_list(b));
    lemma_event_list_holds(a);
    lemma_event_list_holds(b);
    lemma_name_order_keeps_events(event_list(a));
    lemma_name_order_keeps_events(event_list(b));
    assert forall|e: EventModel| #[trigger] x.contains(e) <==> y.contains(e) by {
        assert(event_list(a).contains(e) <==> event_list(b).contains(e)) by {
            assert(event_at(a, e.name) == event_at(b, e.name));
        }
    }
    lemma_strictly_ordered_unique(x, y);
}

/// A database depends only on what is found where it is looked for: neither the order of keys,
/// nor entries that are no event or no alias, nor keys that mean nothing make a difference.
pub proof fn lemma_parse_looks_only_at_finds(a: PlistTree, b: PlistTree)
    requires
        keys_distinct(a),
        keys_distinct(b),
        same_finds(a, b),
    ensures
        same_database(database_in(a), database_in(b)),
{
    if a is Dictionary {
        let (x, y) = (a->Dictionary_0, b->Dictionary_0);
        if dictionary_at(x, "system"@) is Some {
            lemma_dictionary_at_distinct(x, "system"@);
            lemma_dictionary_at_distinct(y, "system"@);
            let s = dictionary_at(x, "system"@)->Some_0;
            let t = dictionary_at(y, "system"@)->Some_0;
            if dictionary_at(s, "cpu"@) is Some {
                lemma_dictionary_at_distinct(s, "cpu"@);
                lemma_dictionary_at_distinct(t, "cpu"@);
                let c = dictionary_at(s, "cpu"@)->Some_0;
                let d = dictionary_at(t, "cpu"@)->Some_0;
                lemma_same_cpu(c, d);
            }
        }
    }
}

proof fn lemma_same_cpu(c: Seq<(Seq<char>, PlistTree)>, d: Seq<(Seq<char>, PlistTree)>)
    requires
        keys_distinct(PlistTree::Dictionary(c)),
        keys_distinct(PlistTree::Dictionary(d)),
        same_cpu(c, d),
    ensures
        forall|name: Seq<char>| same_cpu_data(#[trigger] cpu_in(name, c), cpu_in(name, d)),
        dictionary_at(c, "events"@) matches Some(x) ==> (dictionary_at(d, "events"@) matches Some(
            y,
        ) && in_name_order(event_list(x)) == in_name_order(event_list(y))),
{
    let u = entries_or_none(dictionary_at(c, "aliases"@));
    let v = entries_or_none(dictionary_at(d, "aliases"@));
    if dictionary_at(c, "aliases"@) is Some {
        lemma_dictionary_at_distinct(c, "aliases"@);
    }
    if dictionary_at(d, "aliases"@) is Some {
        lemma_dictionary_at_distinct(d, "aliases"@);
    }
    lemma_alias_list_holds(u);
    lemma_alias_list_holds(v);
    assert forall|name: Seq<char>| same_cpu_data(
        #[trigger] cpu_in(name, c),
        cpu_in(name, d),
    ) by {
        let (m, n) = (cpu_in(name, c), cpu_in(name, d));
        assert(m.aliases =~= alias_list(u));
        assert(n.aliases =~= alias_list(v));
        assert forall|alias: (Seq<char>, Seq<char>)| #[trigger] m.aliases.contains(
            alias,
        ) <==> n.aliases.contains(alias) by {
            assert(text_at(u, alias.0) == text_at(v, alias.0));
        }
        assert forall|key: Seq<char>| #[trigger] m.meant(key) == n.meant(key) by {
            assert(text_at(u, key) == text_at(v, key));
        }
    }
    if dictionary_at(c, "events"@) is Some {
        lemma_dictionary_at_distinct(c, "events"@);
        lemma_dictionary_at_distinct(d, "events"@);
        lemma_same_event_lists(
            dictionary_at(c, "events"@)->Some_0,
            dictionary_at(d, "events"@)->Some_0,
        );
    }
}

/// What is found in a dictionary does not depend on the order of its entries.
pub proof fn lemma_lookup_ignores_order(
    a: Seq<(Seq<char>, PlistTree)>,
    b: Seq<(Seq<char>, PlistTree)>,
    key: Seq<char>,
)
    requires
        distinct_keys(a),
        distinct_keys(b),
        forall|entry: (Seq<char>, PlistTree)| #[trigger] a.contains(entry) <==> b.contains(entry),
    ensures
        lookup(a, key) == lookup(b, key),
{
    if lookup(a, key) is Some {
        lemma_found_in_both(a, b, key);
    } else if lookup(b, key) is Some {
        lemma_found_in_both(b, a, key);
    }
}

proof fn lemma_found_in_both(
    a: Seq<(Seq<char>, PlistTree)>,
    b: Seq<(Seq<char>, PlistTree)>,
    key: Seq<char>,
)
    requires
        distinct_keys(b),
        lookup(a, key) is Some,
        forall|entry: (Seq<char>, PlistTree)| #[trigger] a.contains(entry) ==> b.contains(entry),
    ensures
        lookup(a, key) == lookup(b, key),
{
    lemma_lookup_found(a, key);
    let i = choose|i: int|
        0 <= i < a.len() && (#[trigger] a[i]).0 == key && lookup(a, key) == Some(a[i].1);
    assert(a.contains(a[i]));
    let j = choose|j: int| 0 <= j < b.len() && b[j] == a[i];
    lemma_lookup_is(b, j);
}

/// What a look at a key finds is the value of the first entry with that key.
pub proof fn lemma_lookup_is_first(
    entries: Seq<(Seq<char>, PlistTree)>,
    key: Seq<char>,
    i: int,
)
    requires
        0 <= i <= entries.len(),
        forall|j: int| 0 <= j < i ==> (#[trigger] entries[j]).0 != key,
    ensures
        i < entries.len() && entries[i].0 == key ==> lookup(entries, key) == Some(entries[i].1),
        i == entries.len() ==> lookup(entries, key) is None,
    decreases i,
{
    if i > 0 {
        let rest = entries.drop_first();
        assert(entries[0].0 != key);
        assert forall|j: int| 0 <= j < i - 1 implies (#[trigger] rest[j]).0 != key by {
            assert(entries[j + 1].0 != key);
        }
        lemma_lookup_is_first(rest, key, i - 1);
    }
}

proof fn lemma_lookup_finds_entries(entries: Seq<(Seq<char>, PlistTree)>, key: Seq<char>)
    requires
        distinct_keys(entries),
    ensures
        forall|value: PlistTree| #[trigger]
            entries.contains((key, value)) <==> lookup(entries, key) == Some(value),
{
    assert forall|value: PlistTree| #[trigger] entries.contains((key, value)) <==> lookup(
        entries,
        key,
    ) == Some(value) by {
        if entries.contains((key, value)) {
            let i = choose|i: int| 0 <= i < entries.len() && entries[i] == (key, value);
            lemma_lookup_is(entries, i);
        }
        if lookup(entries, key) == Some(value) {
            lemma_lookup_found(entries, key);
            let i = choose|i: int|
                0 <= i < entries.len() && (#[trigger] entries[i]).0 == key && lookup(entries, key)
                    == Some(entries[i].1);
            assert(entries[i] == (key, value));
        }
    }
}

proof fn lemma_inner_dictionary(
    entries: Seq<(Seq<char>, PlistTree)>,
    key: Seq<char>,
    inner: Seq<(Seq<char>, PlistTree)>,
)
    requires
        keys_distinct(PlistTree::Dictionary(entries)),
        entries.contains((key, PlistTree::Dictionary(inner))),
    ensures
        distinct_keys(entries),
        dictionary_at(entries, key) == Some(inner),
        keys_distinct(PlistTree::Dictionary(inner)),
        distinct_keys(inner),
{
    lemma_distinct_dictionary(entries);
    lemma_lookup_finds_entries(entries, key);
    lemma_dictionary_at_distinct(entries, key);
    lemma_distinct_dictionary(inner);
}

proof fn lemma_distinct_dictionary(entries: Seq<(Seq<char>, PlistTree)>)
    requires
        keys_distinct(PlistTree::Dictionary(entries)),
    ensures
        distinct_keys(entries),
{
    let whole = PlistTree::Dictionary(entries);
    assert forall|i: int, j: int| 0 <= i < j < entries.len() implies (#[trigger] entries[i]).0 != (
    #[trigger] entries[j]).0 by {
        assert(whole->Dictionary_0[i].0 != whole->Dictionary_0[j].0);
    }
}

/// A document with the dictionaries `system`, `cpu` in it and `events` in that describes a
/// database. Each dictionary among the events is one event of it, under its key: each of its
/// numbers is the one under the key of that name, as is the event to fall back to, and there is
/// none if no such entry is there. The description is the text under its key, or empty.
pub proof fn lemma_events_are_read_field_by_field(
    top: Seq<(Seq<char>, PlistTree)>,
    system: Seq<(Seq<char>, PlistTree)>,
    cpu: Seq<(Seq<char>, PlistTree)>,
    events: Seq<(Seq<char>, PlistTree)>,
    name: Seq<char>,
    fields: Seq<(Seq<char>, PlistTree)>,
    k: int,
)
    requires
        keys_distinct(PlistTree::Dictionary(top)),
        top.contains(("system"@, PlistTree::Dictionary(system))),
        system.contains(("cpu"@, PlistTree::Dictionary(cpu))),
        cpu.contains(("events"@, PlistTree::Dictionary(events))),
        events.contains((name, PlistTree::Dictionary(fields))),
    ensures
        database_in(PlistTree::Dictionary(top)) is Ok,
        ({
            let db = database_in(PlistTree::Dictionary(top))->Ok_0;
            exists|k: int| 0 <= k < db.events.len() && (#[trigger] db.events[k]).name == name
        }),
        ({
            let db = database_in(PlistTree::Dictionary(top))->Ok_0;
            0 <= k < db.events.len() && db.events[k].name == name ==> {
                &&& forall|n: u64|
                    db.events[k].number == Some(n) <==> #[trigger] fields.contains(
                        ("number"@, PlistTree::Unsigned(n)),
                    )
                &&& forall|n: u64|
                    db.events[k].counters_mask == Some(n) <==> #[trigger] fields.contains(
                        ("counters_mask"@, PlistTree::Unsigned(n)),
                    )
                &&& forall|n: u64|
                    db.events[k].pc_capture_counters_mask == Some(n) <==> #[trigger] fields.contains(
                        ("pc_capture_counters_mask"@, PlistTree::Unsigned(n)),
                    )
                &&& forall|n: u64|
                    db.events[k].fixed_counter == Some(n) <==> #[trigger] fields.contains(
                        ("fixed_counter"@, PlistTree::Unsigned(n)),
                    )
                &&& forall|text: Seq<char>|
                    db.events[k].fallback == Some(text) <==> #[trigger] fields.contains(
                        ("fallback"@, PlistTree::Text(text)),
                    )
                &&& forall|text: Seq<char>| #[trigger]
                    fields.contains(("description"@, PlistTree::Text(text)))
                        ==> db.events[k].description == text
                &&& (forall|text: Seq<char>|
                    !#[trigger] fields.contains(("description"@, PlistTree::Text(text))))
                    ==> db.events[k].description.len() == 0
            }
        }),
{
    let root = PlistTree::Dictionary(top);
    lemma_inner_dictionary(top, "system"@, system);
    lemma_inner_dictionary(system, "cpu"@, cpu);
    lemma_inner_dictionary(cpu, "events"@, events);
    lemma_inner_dictionary(events, name, fields);
    let db = database_in(root)->Ok_0;
    let list = event_list(events);
    assert(db.events == in_name_order(list));
    lemma_name_order_keeps_events(list);
    lemma_event_list_holds(events);
    let e = event_in(name, fields);
    assert(event_at(events, name) == Some(e));
    assert(list.contains(e));
    assert(db.events.contains(e));
    let at = choose|at: int| 0 <= at < db.events.len() && db.events[at] == e;
    assert(db.events[at].name == name);
    if 0 <= k < db.events.len() && db.events[k].name == name {
        let f = db.events[k];
        assert(db.events.contains(f));
        assert(list.contains(f));
        assert(f == e);
        lemma_lookup_finds_entries(fields, "number"@);
        lemma_lookup_finds_entries(fields, "counters_mask"@);
        lemma_lookup_finds_entries(fields, "pc_capture_counters_mask"@);
        lemma_lookup_finds_entries(fields, "fixed_counter"@);
        lemma_lookup_finds_entries(fields, "fallback"@);
        lemma_lookup_finds_entries(fields, "description"@);
        reveal_strlit("");
        if text_at(fields, "description"@) is Some {
            let text = text_at(fields, "description"@)->Some_0;
            assert(fields.contains(("description"@, PlistTree::Text(text))));
        }
    }
}

/// The events of a database that is read from a document are the dictionaries among its events, and
/// they stand in the order of their names: of two names the one comes first that has the lesser
/// character where they first differ, or that ends there.
pub proof fn lemma_events_stand_by_name(
    top: Seq<(Seq<char>, PlistTree)>,
    system: Seq<(Seq<char>, PlistTree)>,
    cpu: Seq<(Seq<char>, PlistTree)>,
    events: Seq<(Seq<char>, PlistTree)>,
)
    requires
        keys_distinct(PlistTree::Dictionary(top)),
        top.contains(("system"@, PlistTree::Dictionary(system))),
        system.contains(("cpu"@, PlistTree::Dictionary(cpu))),
        cpu.contains(("events"@, PlistTree::Dictionary(events))),
    ensures
        database_in(PlistTree::Dictionary(top)) is Ok,
        ({
            let found = database_in(PlistTree::Dictionary(top))->Ok_0.events;
            &&& forall|k: int|
                0 <= k < found.len() ==> exists|fields: Seq<(Seq<char>, PlistTree)>| #[trigger]
                    events.contains(((#[trigger] found[k]).name, PlistTree::Dictionary(fields)))
            &&& forall|i: int, j: int|
                0 <= i < j < found.len() ==> {
                    let (a, b) = ((#[trigger] found[i]).name, (#[trigger] found[j]).name);
                    exists|m: int|
                        {
                            &&& 0 <= m < b.len()
                            &&& m <= a.len()
                            &&& forall|q: int| 0 <= q < m ==> a[q] == b[q]
                            &&& m == a.len() || (#[trigger] a[m]) < b[m]
                        }
                }
        }),
{
    let root = PlistTree::Dictionary(top);
    lemma_inner_dictionary(top, "system"@, system);
    lemma_inner_dictionary(system, "cpu"@, cpu);
    lemma_inner_dictionary(cpu, "events"@, events);
    let found = database_in(root)->Ok_0.events;
    let list = event_list(events);
    lemma_database_well_formed(root);
    lemma_name_order_keeps_events(list);
    lemma_event_list_holds(events);
    assert forall|k: int| 0 <= k < found.len() implies exists|fields: Seq<(Seq<char>, PlistTree)>|
        #[trigger] events.contains(((#[trigger] found[k]).name, PlistTree::Dictionary(fields))) by {
        assert(found.contains(found[k]));
        assert(list.contains(found[k]));
        let fields = dictionary_at(events, found[k].name)->Some_0;
        lemma_lookup_finds_entries(events, found[k].name);
        assert(events.contains((found[k].name, PlistTree::Dictionary(fields))));
    }
    assert forall|i: int, j: int| 0 <= i < j < found.len() implies {
        let (a, b) = ((#[trigger] found[i]).name, (#[trigger] found[j]).name);
        exists|m: int|
            {
                &&& 0 <= m < b.len()
                &&& m <= a.len()
                &&& forall|q: int| 0 <= q < m ==> a[q] == b[q]
                &&& m == a.len() || (#[trigger] a[m]) < b[m]
            }
    } by {
        let (a, b) = (found[i].name, found[j].name);
        assert(text_before(a, b));
        let m = choose|m: int| #[trigger] parts_lesser_at(a, b, m);
        assert(m == a.len() || a[m] < b[m]);
    }
}

/// The CPU of a database that is read from a document is described by the entries of its `cpu`
/// dictionary, each under its own key; what is missing there is unknown, zero, or for the marketing
/// name the database's own name. Its aliases are the texts in the `aliases` dictionary.
pub proof fn lemma_cpu_is_read_field_by_field(
    top: Seq<(Seq<char>, PlistTree)>,
    system: Seq<(Seq<char>, PlistTree)>,
    cpu: Seq<(Seq<char>, PlistTree)>,
    events: Seq<(Seq<char>, PlistTree)>,
)
    requires
        keys_distinct(PlistTree::Dictionary(top)),
        top.contains(("system"@, PlistTree::Dictionary(system))),
        system.contains(("cpu"@, PlistTree::Dictionary(cpu))),
        cpu.contains(("events"@, PlistTree::Dictionary(events))),
    ensures
        database_in(PlistTree::Dictionary(top)) is Ok,
        ({
            let db = database_in(PlistTree::Dictionary(top))->Ok_0;
            &&& forall|text: Seq<char>| #[trigger]
                top.contains(("name"@, PlistTree::Text(text))) ==> db.name == text
            &&& (forall|text: Seq<char>| !#[trigger] top.contains(("name"@, PlistTree::Text(text))))
                ==> db.name == "unknown"@
            &&& forall|text: Seq<char>| #[trigger]
                cpu.contains(("architecture"@, PlistTree::Text(text))) ==> db.cpu.architecture
                    == text
            &&& (forall|text: Seq<char>|
                !#[trigger] cpu.contains(("architecture"@, PlistTree::Text(text))))
                ==> db.cpu.architecture == "unknown"@
            &&& forall|text: Seq<char>| #[trigger]
                cpu.contains(("marketing_name"@, PlistTree::Text(text))) ==> db.cpu.marketing_name
                    == text
            &&& (forall|text: Seq<char>|
                !#[trigger] cpu.contains(("marketing_name"@, PlistTree::Text(text))))
                ==> db.cpu.marketing_name == db.name
            &&& forall|n: u64| #[trigger]
                cpu.contains(("fixed_counters"@, PlistTree::Unsigned(n))) ==> db.cpu.fixed_counters
                    == n
            &&& (forall|n: u64|
                !#[trigger] cpu.contains(("fixed_counters"@, PlistTree::Unsigned(n))))
                ==> db.cpu.fixed_counters == 0
            &&& forall|n: u64| #[trigger]
                cpu.contains(("config_counters"@, PlistTree::Unsigned(n)))
                    ==> db.cpu.config_counters == n
            &&& (forall|n: u64|
                !#[trigger] cpu.contains(("config_counters"@, PlistTree::Unsigned(n))))
                ==> db.cpu.config_counters == 0
            &&& forall|aliases: Seq<(Seq<char>, PlistTree)>, from: Seq<char>, to: Seq<char>|
                #![trigger aliases.contains((from, PlistTree::Text(to))), db.cpu.aliases.contains((from, to))]
                cpu.contains(("aliases"@, PlistTree::Dictionary(aliases))) ==> (
                db.cpu.aliases.contains((from, to)) <==> aliases.contains(
                    (from, PlistTree::Text(to)),
                ))
            &&& (forall|aliases: Seq<(Seq<char>, PlistTree)>|
                !#[trigger] cpu.contains(("aliases"@, PlistTree::Dictionary(aliases))))
                ==> db.cpu.aliases.len() == 0
            &&& forall|i: int, j: int|
                0 <= i < j < db.cpu.aliases.len() ==> (#[trigger] db.cpu.aliases[i]).0 != (
                #[trigger] db.cpu.aliases[j]).0
        }),
{
    let root = PlistTree::Dictionary(top);
    lemma_inner_dictionary(top, "system"@, system);
    lemma_inner_dictionary(system, "cpu"@, cpu);
    lemma_inner_dictionary(cpu, "events"@, events);
    let db = database_in(root)->Ok_0;
    lemma_database_well_formed(root);
    lemma_lookup_finds_entries(top, "name"@);
    lemma_lookup_finds_entries(cpu, "architecture"@);
    lemma_lookup_finds_entries(cpu, "marketing_name"@);
    lemma_lookup_finds_entries(cpu, "fixed_counters"@);
    lemma_lookup_finds_entries(cpu, "config_counters"@);
    lemma_lookup_finds_entries(cpu, "aliases"@);
    if let Some(text) = text_at(top, "name"@) {
        assert(top.contains(("name"@, PlistTree::Text(text))));
    }
    if let Some(text) = text_at(cpu, "architecture"@) {
        assert(cpu.contains(("architecture"@, PlistTree::Text(text))));
    }
    if let Some(text) = text_at(cpu, "marketing_name"@) {
        assert(cpu.contains(("marketing_name"@, PlistTree::Text(text))));
    }
    if let Some(n) = unsigned_at(cpu, "fixed_counters"@) {
        assert(cpu.contains(("fixed_counters"@, PlistTree::Unsigned(n))));
    }
    if let Some(n) = unsigned_at(cpu, "config_counters"@) {
        assert(cpu.contains(("config_counters"@, PlistTree::Unsigned(n))));
    }
    if let Some(aliases) = dictionary_at(cpu, "aliases"@) {
        assert(cpu.contains(("aliases"@, PlistTree::Dictionary(aliases))));
    }
    assert forall|aliases: Seq<(Seq<char>, PlistTree)>, from: Seq<char>, to: Seq<char>|
        #![trigger aliases.contains((from, PlistTree::Text(to))), db.cpu.aliases.contains((from, to))]
        cpu.contains(("aliases"@, PlistTree::Dictionary(aliases))) implies (
    db.cpu.aliases.contains((from, to)) <==> aliases.contains((from, PlistTree::Text(to)))) by {
        lemma_inner_dictionary(cpu, "aliases"@, aliases);
        lemma_alias_list_holds(aliases);
        lemma_lookup_finds_entries(aliases, from);
        assert(db.cpu.aliases == alias_list(aliases));
        assert(alias_list(aliases).contains((from, to)) <==> text_at(aliases, from) == Some(to));
    }
}

/// What is amiss with a document that describes no database is told by the first dictionary that is
/// missing on the way to the events.
pub proof fn lemma_missing_dictionaries_are_told(root: PlistTree)
    requires
        keys_distinct(root),
    ensures
        !(root is Dictionary) ==> database_in(root) == Err::<DatabaseModel, ErrorModel>(
            ErrorModel::StructureError("root is not a dict"@),
        ),
        root matches PlistTree::Dictionary(top) ==> ((forall|d: Seq<(Seq<char>, PlistTree)>|
            !#[trigger] top.contains(("system"@, PlistTree::Dictionary(d)))) ==> database_in(root)
            == Err::<DatabaseModel, ErrorModel>(ErrorModel::StructureError("missing system"@))),
        root matches PlistTree::Dictionary(top) ==> forall|system: Seq<(Seq<char>, PlistTree)>|
            #[trigger] top.contains(("system"@, PlistTree::Dictionary(system))) && (forall|d: Seq<
                (Seq<char>, PlistTree),
            >|
                !#[trigger] system.contains(("cpu"@, PlistTree::Dictionary(d)))) ==> database_in(
                root,
            ) == Err::<DatabaseModel, ErrorModel>(
                ErrorModel::StructureError("missing system.cpu"@),
            ),
        root matches PlistTree::Dictionary(top) ==> forall|
            system: Seq<(Seq<char>, PlistTree)>,
            cpu: Seq<(Seq<char>, PlistTree)>,
        |
            #[trigger] top.contains(("system"@, PlistTree::Dictionary(system)))
                && #[trigger] system.contains(("cpu"@, PlistTree::Dictionary(cpu))) && (forall|
                d: Seq<(Seq<char>, PlistTree)>,
            |
                !#[trigger] cpu.contains(("events"@, PlistTree::Dictionary(d)))) ==> database_in(
                root,
            ) == Err::<DatabaseModel, ErrorModel>(
                ErrorModel::StructureError("missing system.cpu.events"@),
            ),
{
    if let PlistTree::Dictionary(top) = root {
        lemma_distinct_dictionary(top);
        lemma_lookup_finds_entries(top, "system"@);
        if let Some(d) = dictionary_at(top, "system"@) {
            assert(top.contains(("system"@, PlistTree::Dictionary(d))));
        }
        assert forall|system: Seq<(Seq<char>, PlistTree)>|
            #[trigger] top.contains(("system"@, PlistTree::Dictionary(system))) && (forall|d: Seq<
                (Seq<char>, PlistTree),
            >|
                !#[trigger] system.contains(("cpu"@, PlistTree::Dictionary(d)))) implies database_in(
            root,
        ) == Err::<DatabaseModel, ErrorModel>(ErrorModel::StructureError("missing system.cpu"@)) by {
            lemma_inner_dictionary(top, "system"@, system);
            lemma_lookup_finds_entries(system, "cpu"@);
            if let Some(d) = dictionary_at(system, "cpu"@) {
                assert(system.contains(("cpu"@, PlistTree::Dictionary(d))));
            }
        }
        assert forall|system: Seq<(Seq<char>, PlistTree)>, cpu: Seq<(Seq<char>, PlistTree)>|
            #[trigger] top.contains(("system"@, PlistTree::Dictionary(system)))
                && #[trigger] system.contains(("cpu"@, PlistTree::Dictionary(cpu))) && (forall|
                d: Seq<(Seq<char>, PlistTree)>,
            |
                !#[trigger] cpu.contains(("events"@, PlistTree::Dictionary(d)))) implies database_in(
            root,
        ) == Err::<DatabaseModel, ErrorModel>(
            ErrorModel::StructureError("missing system.cpu.events"@),
        ) by {
            lemma_inner_dictionary(top, "system"@, system);
            lemma_inner_dictionary(system, "cpu"@, cpu);
            lemma_lookup_finds_entries(cpu, "events"@);
            if let Some(d) = dictionary_at(cpu, "events"@) {
                assert(cpu.contains(("events"@, PlistTree::Dictionary(d))));
            }
        }
    }
}

/// A name is looked up in two steps: the first alias with that name, if there is one, is replaced
/// by what it stands for, and the first event with the resulting name is found. None is found if no
/// event has it.
pub proof fn lemma_names_lead_to_events(
    db: DatabaseModel,
    name: Seq<char>,
    target: Seq<char>,
    k: int,
)
    requires
        (exists|a: int|
            {
                &&& 0 <= a < db.cpu.aliases.len()
                &&& (#[trigger] db.cpu.aliases[a]).0 == name
                &&& db.cpu.aliases[a].1 == target
                &&& forall|b: int| 0 <= b < a ==> (#[trigger] db.cpu.aliases[b]).0 != name
            }) || (target == name && forall|a: int|
            0 <= a < db.cpu.aliases.len() ==> (#[trigger] db.cpu.aliases[a]).0 != name),
        0 <= k <= db.events.len(),
        forall|j: int| 0 <= j < k ==> (#[trigger] db.events[j]).name != target,
    ensures
        k < db.events.len() && db.events[k].name == target ==> db.named(name) == Some(db.events[k]),
        k == db.events.len() ==> db.named(name) is None,
{
    if forall|a: int| 0 <= a < db.cpu.aliases.len() ==> (#[trigger] db.cpu.aliases[a]).0 != name {
        lemma_no_target(db.cpu.aliases, name);
    } else {
        let a = choose|a: int|
            {
                &&& 0 <= a < db.cpu.aliases.len()
                &&& (#[trigger] db.cpu.aliases[a]).0 == name
                &&& db.cpu.aliases[a].1 == target
                &&& forall|b: int| 0 <= b < a ==> (#[trigger] db.cpu.aliases[b]).0 != name
            };
        lemma_first_target_is(db.cpu.aliases, a);
    }
    assert(db.cpu.meant(name) == target);
    if k < db.events.len() && db.events[k].name == target {
        lemma_first_named_is(db.events, k);
    }
    if k == db.events.len() {
        lemma_first_named(db.events, target);
        if let Some(e) = first_named(db.events, target) {
            let j = choose|j: int| 0 <= j < db.events.len() && db.events[j] == e;
            assert(db.events[j].name != target);
        }
    }
}

/// An event is counted by a fixed counter if it has the index of one, and can be programmed if it
/// has a number and no such index.
pub proof fn lemma_kinds_of_events(event: EventModel)
    ensures
        event.fixed() <==> event.fixed_counter is Some,
        event.configurable() <==> event.number is Some && event.fixed_counter is None,
{
}

/// Contracts speak of an event by its own fields.
pub proof fn lemma_event_models_show_fields(event: KpepEvent)
    ensures
        event@.name == event.name@,
        event@.description == event.description@,
        event@.number == event.number,
        event@.counters_mask == event.counters_mask,
        event@.pc_capture_counters_mask == event.pc_capture_counters_mask,
        event@.fixed_counter == event.fixed_counter,
        event.fallback matches Some(s) ==> event@.fallback == Some(s@),
        event.fallback is None ==> event@.fallback is None,
{
}

/// Contracts speak of a CPU by its own fields.
pub proof fn lemma_cpu_models_show_fields(cpu: CpuInfo)
    ensures
        cpu@.architecture == cpu.architecture@,
        cpu@.marketing_name == cpu.marketing_name@,
        cpu@.fixed_counters == cpu.fixed_counters,
        cpu@.config_counters == cpu.config_counters,
        cpu@.aliases.len() == cpu.aliases@.len(),
        forall|i: int|
            0 <= i < cpu.aliases@.len() ==> (#[trigger] cpu@.aliases[i]) == (
                cpu.aliases@[i].0@,
                cpu.aliases@[i].1@,
            ),
{
}

/// Contracts speak of rows of events by the events in their order, and of pairs by their texts.
pub proof fn lemma_rows_show_items(
    events: Seq<KpepEvent>,
    refs: Seq<&KpepEvent>,
    pairs: Seq<(String, String)>,
    i: int,
)
    ensures
        event_models(events).len() == events.len(),
        0 <= i < events.len() ==> event_models(events)[i] == events[i]@,
        models_of(refs).len() == refs.len(),
        0 <= i < refs.len() ==> models_of(refs)[i] == refs[i]@,
        pair_texts(pairs).len() == pairs.len(),
        0 <= i < pairs.len() ==> pair_texts(pairs)[i].0 == pairs[i].0@ && pair_texts(pairs)[i].1
            == pairs[i].1@,
{
}

/// Contracts speak of a result by its database, or by what its error says.
pub proof fn lemma_results_are_told(
    db: KpepDatabase,
    path: String,
    what: String,
    cpu_type: u32,
    cpu_subtype: u32,
    cpu_family: u32,
)
    ensures
        told(Ok(db)) == Ok::<DatabaseModel, ErrorModel>(db@),
        told(Err(KpepError::DatabaseNotFound { cpu_type, cpu_subtype, cpu_family })) == Err::<
            DatabaseModel,
            ErrorModel,
        >(ErrorModel::DatabaseNotFound { cpu_type, cpu_subtype, cpu_family }),
        told(Err(KpepError::ReadError { path, source: what })) == Err::<DatabaseModel, ErrorModel>(
            ErrorModel::ReadError { path: path@, source: what@ },
        ),
        told(Err(KpepError::StructureError(what))) == Err::<DatabaseModel, ErrorModel>(
            ErrorModel::StructureError(what@),
        ),
        told(Err(KpepError::SysctlError(what))) == Err::<DatabaseModel, ErrorModel>(
            ErrorModel::SysctlError(what@),
        ),
{
}

} // verus!
