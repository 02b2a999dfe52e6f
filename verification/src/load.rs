//! Loading the database of the CPU that the program runs on.
//!
//! The CPU is asked for by three system queries, and its database is sought among the files
//! of `/usr/share/kpep`. What to ask for next and what the answers mean is decided here;
//! asking is left to the program.

use vstd::prelude::*;

use crate::kpep::{
    contents_of, database_in_file, told, DatabaseModel, ErrorModel, KpepDatabase, KpepError,
};
use crate::numerals::{hexadecimal, to_hexadecimal};
use crate::text::{begins_with, ends_in, texts};

verus! {

/// The directory of the database files.
pub open spec fn database_directory() -> Seq<char> {
    "/usr/share/kpep"@
}

/// What the names of a CPU type's database files begin with.
pub open spec fn file_prefix(cpu_type: u32, cpu_subtype: u32) -> Seq<char> {
    "cpu_"@ + hexadecimal(cpu_type as nat) + "_"@ + hexadecimal(cpu_subtype as nat) + "_"@
}

/// The name of a CPU's database file.
pub open spec fn file_name(cpu_type: u32, cpu_subtype: u32, cpu_family: u32) -> Seq<char> {
    file_prefix(cpu_type, cpu_subtype) + hexadecimal(cpu_family as nat) + ".plist"@
}

/// The path of a file in the database directory.
pub open spec fn path_in_directory(name: Seq<char>) -> Seq<char> {
    database_directory() + "/"@ + name
}

fn write_prefix(cpu_type: u32, cpu_subtype: u32) -> (r: String)
    ensures
        r@ == file_prefix(cpu_type, cpu_subtype),
{
    let mut r = "cpu_".to_owned();
    r.append(to_hexadecimal(cpu_type as u64).as_str());
    r.append("_");
    r.append(to_hexadecimal(cpu_subtype as u64).as_str());
    r.append("_");
    r
}

fn write_path(name: &str) -> (r: String)
    ensures
        r@ == path_in_directory(name@),
{
    let mut r = "/usr/share/kpep".to_owned();
    r.append("/");
    r.append(name);
    r
}

/// The path of a CPU's database file.
pub fn database_path(cpu_type: u32, cpu_subtype: u32, cpu_family: u32) -> (r: String)
    ensures
        r@ == path_in_directory(file_name(cpu_type, cpu_subtype, cpu_family)),
{
    let mut name = write_prefix(cpu_type, cpu_subtype);
    name.append(to_hexadecimal(cpu_family as u64).as_str());
    name.append(".plist");
    write_path(name.as_str())
}

/// Whether a file name is that of a database for the CPU type, of whatever family.
pub open spec fn serves(name: Seq<char>, cpu_type: u32, cpu_subtype: u32) -> bool {
    file_prefix(cpu_type, cpu_subtype).is_prefix_of(name) && ".plist"@.is_suffix_of(name)
}

/// The file named after a CPU serves its type.
pub proof fn lemma_own_file_serves(cpu_type: u32, cpu_subtype: u32, cpu_family: u32)
    ensures
        serves(file_name(cpu_type, cpu_subtype, cpu_family), cpu_type, cpu_subtype),
{
    let name = file_name(cpu_type, cpu_subtype, cpu_family);
    let prefix = file_prefix(cpu_type, cpu_subtype);
    let end = ".plist"@;
    assert(name.subrange(0, prefix.len() as int) =~= prefix);
    assert(name.subrange(name.len() - end.len(), name.len() as int) =~= end);
}

/// The first file name from `from` on that serves the CPU type.
pub open spec fn first_serving(
    names: Seq<Seq<char>>,
    cpu_type: u32,
    cpu_subtype: u32,
    from: int,
) -> Option<int>
    decreases names.len() - from,
{
    if from < 0 || from >= names.len() {
        None
    } else if serves(names[from], cpu_type, cpu_subtype) {
        Some(from)
    } else {
        first_serving(names, cpu_type, cpu_subtype, from + 1)
    }
}

/// Find the kpep database file matching the given CPU identifiers among the files of the
/// database directory, when the file named after them is not there.
pub fn find_database_path(
    cpu_type: u32,
    cpu_subtype: u32,
    cpu_family: u32,
    names: &Vec<String>,
) -> (r: Result<usize, KpepError>)
    ensures
        match first_serving(texts(names@), cpu_type, cpu_subtype, 0) {
            Some(i) => r matches Ok(k) && k == i && k < names@.len(),
            None => r == Err::<usize, KpepError>(
                KpepError::DatabaseNotFound { cpu_type, cpu_subtype, cpu_family },
            ),
        },
{
    let prefix = write_prefix(cpu_type, cpu_subtype);
    let ghost all = texts(names@);
    for i in 0..names.len()
        invariant
            all == texts(names@),
            prefix@ == file_prefix(cpu_type, cpu_subtype),
            first_serving(all, cpu_type, cpu_subtype, 0) == first_serving(
                all,
                cpu_type,
                cpu_subtype,
                i as int,
            ),
    {
        assert(all[i as int] == names@[i as int]@);
        if begins_with(names[i].as_str(), prefix.as_str()) && ends_in(names[i].as_str(), ".plist") {
            return Ok(i);
        }
    }
    Err(KpepError::DatabaseNotFound { cpu_type, cpu_subtype, cpu_family })
}

/// How far the loading has come.
#[derive(Debug)]
pub enum CpuLoad {
    /// The CPU type is asked for.
    CpuType,
    /// The CPU subtype is asked for.
    CpuSubtype { cpu_type: u32 },
    /// The CPU family is asked for.
    CpuFamily { cpu_type: u32, cpu_subtype: u32 },
    /// It is asked whether the CPU's own database file is there.
    Path { cpu_type: u32, cpu_subtype: u32, cpu_family: u32 },
    /// The names of the database files are asked for.
    Directory { cpu_type: u32, cpu_subtype: u32, cpu_family: u32 },
    /// The contents of a file are asked for. It is the entry with the given index if it was
    /// picked from the directory's entries.
    File { path: String, entry: Option<usize> },
}

/// How far the loading has come, in the terms that contracts speak of.
pub enum LoadModel {
    CpuType,
    CpuSubtype { cpu_type: u32 },
    CpuFamily { cpu_type: u32, cpu_subtype: u32 },
    Path { cpu_type: u32, cpu_subtype: u32, cpu_family: u32 },
    Directory { cpu_type: u32, cpu_subtype: u32, cpu_family: u32 },
    File { path: Seq<char>, entry: Option<int> },
}

impl View for CpuLoad {
    type V = LoadModel;

    open spec fn view(&self) -> LoadModel {
        match *self {
            CpuLoad::CpuType => LoadModel::CpuType,
            CpuLoad::CpuSubtype { cpu_type } => LoadModel::CpuSubtype { cpu_type },
            CpuLoad::CpuFamily { cpu_type, cpu_subtype } => LoadModel::CpuFamily {
                cpu_type,
                cpu_subtype,
            },
            CpuLoad::Path { cpu_type, cpu_subtype, cpu_family } => LoadModel::Path {
                cpu_type,
                cpu_subtype,
                cpu_family,
            },
            CpuLoad::Directory { cpu_type, cpu_subtype, cpu_family } => LoadModel::Directory {
                cpu_type,
                cpu_subtype,
                cpu_family,
            },
            CpuLoad::File { path, entry } => LoadModel::File {
                path: path@,
                entry: match entry {
                    Some(i) => Some(i as int),
                    None => None,
                },
            },
        }
    }
}

/// What the system is asked.
#[derive(Debug)]
pub enum LoadRequest {
    /// The value of a system control.
    ReadSysctl(String),
    /// Whether something is at a path.
    CheckPath(String),
    /// The names of the entries of a directory.
    ListDirectory(String),
    /// The contents of the file at a path; of the directory entry with the given index, if one
    /// is given.
    ReadFile(String, Option<usize>),
}

/// What the system is asked, in the terms that contracts speak of.
pub enum RequestModel {
    ReadSysctl(Seq<char>),
    CheckPath(Seq<char>),
    ListDirectory(Seq<char>),
    ReadFile(Seq<char>, Option<int>),
}

impl View for LoadRequest {
    type V = RequestModel;

    open spec fn view(&self) -> RequestModel {
        match self {
            LoadRequest::ReadSysctl(name) => RequestModel::ReadSysctl(name@),
            LoadRequest::CheckPath(path) => RequestModel::CheckPath(path@),
            LoadRequest::ListDirectory(path) => RequestModel::ListDirectory(path@),
            LoadRequest::ReadFile(path, entry) => RequestModel::ReadFile(
                path@,
                match entry {
                    Some(i) => Some(*i as int),
                    None => None,
                },
            ),
        }
    }
}

/// What the system answers.
#[derive(Debug)]
pub enum LoadReply {
    /// What the query returned, the value it wrote, and the text of the error number after it.
    Sysctl { ret: i32, value: u32, error: String },
    /// Whether something is there.
    Exists(bool),
    /// The names of the entries, or `None` if there is no directory that can be listed.
    Listing(Option<Vec<String>>),
    /// The contents of the file, or why they cannot be had.
    File(Result<Vec<u8>, String>),
}

/// What the system answers, in the terms that contracts speak of.
pub enum ReplyModel {
    Sysctl { ret: i32, value: u32, error: Seq<char> },
    Exists(bool),
    Listing(Option<Seq<Seq<char>>>),
    File(Result<Seq<u8>, Seq<char>>),
}

impl View for LoadReply {
    type V = ReplyModel;

    open spec fn view(&self) -> ReplyModel {
        match *self {
            LoadReply::Sysctl { ret, value, error } => ReplyModel::Sysctl {
                ret,
                value,
                error: error@,
            },
            LoadReply::Exists(there) => ReplyModel::Exists(there),
            LoadReply::Listing(names) => ReplyModel::Listing(
                match names {
                    Some(v) => Some(texts(v@)),
                    None => None,
                },
            ),
            LoadReply::File(file) => ReplyModel::File(contents_of(file)),
        }
    }
}

/// What comes of an answer.
#[derive(Debug)]
pub enum LoadStep {
    /// There is more to ask.
    Next(CpuLoad),
    /// The loading is over.
    Done(Result<KpepDatabase, KpepError>),
}

/// What comes of an answer, in the terms that contracts speak of.
pub enum StepModel {
    Next(LoadModel),
    Done(Result<DatabaseModel, ErrorModel>),
}

impl View for LoadStep {
    type V = StepModel;

    open spec fn view(&self) -> StepModel {
        match *self {
            LoadStep::Next(load) => StepModel::Next(load@),
            LoadStep::Done(r) => StepModel::Done(told(r)),
        }
    }
}

/// What is said of a system query that failed.
pub open spec fn query_failed(name: Seq<char>, error: Seq<char>) -> ErrorModel {
    ErrorModel::SysctlError(name + ": errno "@ + error)
}

impl LoadModel {
    /// What is asked for.
    pub open spec fn request(self) -> RequestModel {
        match self {
            LoadModel::CpuType => RequestModel::ReadSysctl("hw.cputype"@),
            LoadModel::CpuSubtype { .. } => RequestModel::ReadSysctl("hw.cpusubtype"@),
            LoadModel::CpuFamily { .. } => RequestModel::ReadSysctl("hw.cpufamily"@),
            LoadModel::Path { cpu_type, cpu_subtype, cpu_family } => RequestModel::CheckPath(
                path_in_directory(file_name(cpu_type, cpu_subtype, cpu_family)),
            ),
            LoadModel::Directory { .. } => RequestModel::ListDirectory(database_directory()),
            LoadModel::File { path, entry } => RequestModel::ReadFile(path, entry),
        }
    }

    /// What comes of an answer. One to another question changes nothing.
    pub open spec fn step(self, reply: ReplyModel) -> StepModel {
        match (self, reply) {
            (LoadModel::CpuType, ReplyModel::Sysctl { ret, value, error }) => if ret != 0 {
                StepModel::Done(Err(query_failed("hw.cputype"@, error)))
            } else {
                StepModel::Next(LoadModel::CpuSubtype { cpu_type: value })
            },
            (LoadModel::CpuSubtype { cpu_type }, ReplyModel::Sysctl { ret, value, error }) => if ret
                != 0 {
                StepModel::Done(Err(query_failed("hw.cpusubtype"@, error)))
            } else {
                StepModel::Next(LoadModel::CpuFamily { cpu_type, cpu_subtype: value })
            },
            (
                LoadModel::CpuFamily { cpu_type, cpu_subtype },
                ReplyModel::Sysctl { ret, value, error },
            ) => if ret != 0 {
                StepModel::Done(Err(query_failed("hw.cpufamily"@, error)))
            } else {
                StepModel::Next(LoadModel::Path { cpu_type, cpu_subtype, cpu_family: value })
            },
            (
                LoadModel::Path { cpu_type, cpu_subtype, cpu_family },
                ReplyModel::Exists(there),
            ) => if there {
                StepModel::Next(
                    LoadModel::File {
                        path: path_in_directory(file_name(cpu_type, cpu_subtype, cpu_family)),
                        entry: None,
                    },
                )
            } else {
                StepModel::Next(LoadModel::Directory { cpu_type, cpu_subtype, cpu_family })
            },
            (
                LoadModel::Directory { cpu_type, cpu_subtype, cpu_family },
                ReplyModel::Listing(Some(names)),
            ) => match first_serving(names, cpu_type, cpu_subtype, 0) {
                Some(i) => StepModel::Next(
                    LoadModel::File { path: path_in_directory(names[i]), entry: Some(i) },
                ),
                None => StepModel::Done(
                    Err(ErrorModel::DatabaseNotFound { cpu_type, cpu_subtype, cpu_family }),
                ),
            },
            (
                LoadModel::Directory { cpu_type, cpu_subtype, cpu_family },
                ReplyModel::Listing(None),
            ) => StepModel::Done(
                Err(ErrorModel::DatabaseNotFound { cpu_type, cpu_subtype, cpu_family }),
            ),
            (LoadModel::File { path, .. }, ReplyModel::File(contents)) => StepModel::Done(
                database_in_file(path, contents),
            ),
            _ => StepModel::Next(self),
        }
    }
}

fn fail_query(name: &str, error: &str) -> (r: LoadStep)
    ensures
        r@ == StepModel::Done(Err(query_failed(name@, error@))),
{
    let mut what = name.to_owned();
    what.append(": errno ");
    what.append(error);
    LoadStep::Done(Err(KpepError::SysctlError(what)))
}

impl KpepDatabase {
    /// Load the kpep database for the currently running CPU: the start of it.
    ///
    /// Discovers the current CPU type/family via sysctl and reads the matching
    /// database file from `/usr/share/kpep/`.
    pub fn load_current_cpu() -> (r: CpuLoad)
        ensures
            r@ == LoadModel::CpuType,
    {
        CpuLoad::CpuType
    }
}

impl CpuLoad {
    /// What is asked for.
    pub fn request(&self) -> (r: LoadRequest)
        ensures
            r@ == self@.request(),
    {
        match self {
            CpuLoad::CpuType => LoadRequest::ReadSysctl("hw.cputype".to_owned()),
            CpuLoad::CpuSubtype { .. } => LoadRequest::ReadSysctl("hw.cpusubtype".to_owned()),
            CpuLoad::CpuFamily { .. } => LoadRequest::ReadSysctl("hw.cpufamily".to_owned()),
            CpuLoad::Path { cpu_type, cpu_subtype, cpu_family } => LoadRequest::CheckPath(
                database_path(*cpu_type, *cpu_subtype, *cpu_family),
            ),
            CpuLoad::Directory { .. } => LoadRequest::ListDirectory("/usr/share/kpep".to_owned()),
            CpuLoad::File { path, entry } => LoadRequest::ReadFile(path.clone(), *entry),
        }
    }

    /// Goes on with the loading, given the answer to what was asked. An answer to another question
    /// changes nothing.
    pub fn step(self, reply: LoadReply) -> (r: LoadStep)
        ensures
            r@ == self@.step(reply@),
            r matches LoadStep::Done(Ok(db)) ==> db@.well_formed(),
    {
        match (self, reply) {
            (CpuLoad::CpuType, LoadReply::Sysctl { ret, value, error }) => {
                if ret != 0 {
                    return fail_query("hw.cputype", error.as_str());
                }
                LoadStep::Next(CpuLoad::CpuSubtype { cpu_type: value })
            },
            (CpuLoad::CpuSubtype { cpu_type }, LoadReply::Sysctl { ret, value, error }) => {
                if ret != 0 {
                    return fail_query("hw.cpusubtype", error.as_str());
                }
                LoadStep::Next(CpuLoad::CpuFamily { cpu_type, cpu_subtype: value })
            },
            (
                CpuLoad::CpuFamily { cpu_type, cpu_subtype },
                LoadReply::Sysctl { ret, value, error },
            ) => {
                if ret != 0 {
                    return fail_query("hw.cpufamily", error.as_str());
                }
                LoadStep::Next(CpuLoad::Path { cpu_type, cpu_subtype, cpu_family: value })
            },
            (CpuLoad::Path { cpu_type, cpu_subtype, cpu_family }, LoadReply::Exists(there)) => {
                if there {
                    let path = database_path(cpu_type, cpu_subtype, cpu_family);
                    LoadStep::Next(CpuLoad::File { path, entry: None })
                } else {
                    LoadStep::Next(CpuLoad::Directory { cpu_type, cpu_subtype, cpu_family })
                }
            },
            (
                CpuLoad::Directory { cpu_type, cpu_subtype, cpu_family },
                LoadReply::Listing(Some(names)),
            ) => match find_database_path(cpu_type, cpu_subtype, cpu_family, &names) {
                Ok(i) => {
                    assert(texts(names@)[i as int] == names@[i as int]@);
                    let path = write_path(names[i].as_str());
                    LoadStep::Next(CpuLoad::File { path, entry: Some(i) })
                },
                Err(e) => LoadStep::Done(Err(e)),
            },
            (
                CpuLoad::Directory { cpu_type, cpu_subtype, cpu_family },
                LoadReply::Listing(None),
            ) => LoadStep::Done(
                Err(KpepError::DatabaseNotFound { cpu_type, cpu_subtype, cpu_family }),
            ),
            (CpuLoad::File { path, .. }, LoadReply::File(file)) => LoadStep::Done(
                KpepDatabase::load_from_path(path.as_str(), file),
            ),
            (load, _) => LoadStep::Next(load),
        }
    }
}

/// A system that answers each question in one way.
pub struct SystemModel {
    /// What each system query returns and writes, and the text of its error number.
    pub sysctl: spec_fn(Seq<char>) -> (i32, u32, Seq<char>),
    /// Whether something is at a path.
    pub exists: spec_fn(Seq<char>) -> bool,
    /// The names of a directory's entries, if it can be listed.
    pub listing: spec_fn(Seq<char>) -> Option<Seq<Seq<char>>>,
    /// What reading a file gives.
    pub file: spec_fn(Seq<char>, Option<int>) -> Result<Seq<u8>, Seq<char>>,
}

impl SystemModel {
    /// The answer to a question.
    pub open spec fn answer(self, request: RequestModel) -> ReplyModel {
        match request {
            RequestModel::ReadSysctl(name) => {
                let (ret, value, error) = (self.sysctl)(name);
                ReplyModel::Sysctl { ret, value, error }
            },
            RequestModel::CheckPath(path) => ReplyModel::Exists((self.exists)(path)),
            RequestModel::ListDirectory(path) => ReplyModel::Listing((self.listing)(path)),
            RequestModel::ReadFile(path, entry) => ReplyModel::File((self.file)(path, entry)),
        }
    }

    /// What comes of a CPU's database: it is read from the file named after the CPU, or else
    /// from the first file in the directory that serves its type.
    pub open spec fn database_of(
        self,
        cpu_type: u32,
        cpu_subtype: u32,
        cpu_family: u32,
    ) -> Result<DatabaseModel, ErrorModel> {
        let own = path_in_directory(file_name(cpu_type, cpu_subtype, cpu_family));
        let missing = Err(ErrorModel::DatabaseNotFound { cpu_type, cpu_subtype, cpu_family });
        if (self.exists)(own) {
            database_in_file(own, (self.file)(own, None))
        } else {
            match (self.listing)(database_directory()) {
                Some(names) => match first_serving(names, cpu_type, cpu_subtype, 0) {
                    Some(i) => database_in_file(
                        path_in_directory(names[i]),
                        (self.file)(path_in_directory(names[i]), Some(i)),
                    ),
                    None => missing,
                },
                None => missing,
            }
        }
    }

    /// What comes of loading: the first system query that fails ends it, and otherwise it
    /// comes to what the CPU's database is.
    pub open spec fn loaded(self) -> Result<DatabaseModel, ErrorModel> {
        let (type_ret, cpu_type, type_error) = (self.sysctl)("hw.cputype"@);
        let (subtype_ret, cpu_subtype, subtype_error) = (self.sysctl)("hw.cpusubtype"@);
        let (family_ret, cpu_family, family_error) = (self.sysctl)("hw.cpufamily"@);
        if type_ret != 0 {
            Err(query_failed("hw.cputype"@, type_error))
        } else if subtype_ret != 0 {
            Err(query_failed("hw.cpusubtype"@, subtype_error))
        } else if family_ret != 0 {
            Err(query_failed("hw.cpufamily"@, family_error))
        } else {
            self.database_of(cpu_type, cpu_subtype, cpu_family)
        }
    }

    /// What the loading comes to from a point on, in at most `fuel` answers.
    pub open spec fn run(self, load: LoadModel, fuel: nat) -> Option<
        Result<DatabaseModel, ErrorModel>,
    >
        decreases fuel,
    {
        if fuel == 0 {
            None
        } else {
            match load.step(self.answer(load.request())) {
                StepModel::Next(next) => self.run(next, (fuel - 1) as nat),
                StepModel::Done(r) => Some(r),
            }
        }
    }
}

/// Loading ends after at most six answers, and with what the system holds.
pub proof fn lemma_load_ends(system: SystemModel)
    ensures
        system.run(LoadModel::CpuType, 6) == Some(system.loaded()),
{
    reveal_with_fuel(SystemModel::run, 7);
}

/// The path of a CPU's file, spelled out.
pub proof fn lemma_own_path(cpu_type: u32, cpu_subtype: u32, cpu_family: u32)
    ensures
        path_in_directory(file_name(cpu_type, cpu_subtype, cpu_family))
            == "/usr/share/kpep/cpu_"@ + hexadecimal(cpu_type as nat) + "_"@ + hexadecimal(
            cpu_subtype as nat,
        ) + "_"@ + hexadecimal(cpu_family as nat) + ".plist"@,
{
    reveal_strlit("/usr/share/kpep");
    reveal_strlit("/");
    reveal_strlit("cpu_");
    reveal_strlit("/usr/share/kpep/cpu_");
    assert("/usr/share/kpep/cpu_"@ =~= "/usr/share/kpep"@ + "/"@ + "cpu_"@);
    assert(path_in_directory(file_name(cpu_type, cpu_subtype, cpu_family))
        =~= "/usr/share/kpep/cpu_"@ + hexadecimal(cpu_type as nat) + "_"@ + hexadecimal(
        cpu_subtype as nat,
    ) + "_"@ + hexadecimal(cpu_family as nat) + ".plist"@);
}

/// The first file that serves a CPU type is the first whose name begins with the type and subtype
/// in hexadecimal and ends in `.plist`.
pub proof fn lemma_first_serving_is_first(
    names: Seq<Seq<char>>,
    cpu_type: u32,
    cpu_subtype: u32,
    i: int,
)
    requires
        0 <= i <= names.len(),
        forall|j: int|
            0 <= j < i ==> !(("cpu_"@ + hexadecimal(cpu_type as nat) + "_"@ + hexadecimal(
                cpu_subtype as nat,
            ) + "_"@).is_prefix_of(#[trigger] names[j]) && ".plist"@.is_suffix_of(names[j])),
    ensures
        i < names.len() && ("cpu_"@ + hexadecimal(cpu_type as nat) + "_"@ + hexadecimal(
            cpu_subtype as nat,
        ) + "_"@).is_prefix_of(names[i]) && ".plist"@.is_suffix_of(names[i]) ==> first_serving(
            names,
            cpu_type,
            cpu_subtype,
            0,
        ) == Some(i),
        i == names.len() ==> first_serving(names, cpu_type, cpu_subtype, 0) is None,
{
    lemma_none_serves_before(names, cpu_type, cpu_subtype, i, 0);
}

proof fn lemma_none_serves_before(
    names: Seq<Seq<char>>,
    cpu_type: u32,
    cpu_subtype: u32,
    i: int,
    from: int,
)
    requires
        0 <= from <= i <= names.len(),
        forall|j: int| 0 <= j < i ==> !serves(#[trigger] names[j], cpu_type, cpu_subtype),
    ensures
        first_serving(names, cpu_type, cpu_subtype, from) == first_serving(
            names,
            cpu_type,
            cpu_subtype,
            i,
        ),
    decreases i - from,
{
    if from < i {
        assert(!serves(names[from], cpu_type, cpu_subtype));
        lemma_none_serves_before(names, cpu_type, cpu_subtype, i, from + 1);
    }
}

/// What loading comes to, in full. The CPU's type, subtype and family are asked for, and the first
/// query that fails is told with its name and the text of its error. Then the CPU's own file is
/// read if it is there, or else the first file of the directory that serves its type; without one
/// no database is found.
pub proof fn lemma_what_loading_comes_to(system: SystemModel, i: int)
    ensures
        ({
            let (type_ret, t, type_error) = (system.sysctl)("hw.cputype"@);
            let (subtype_ret, s, subtype_error) = (system.sysctl)("hw.cpusubtype"@);
            let (family_ret, f, family_error) = (system.sysctl)("hw.cpufamily"@);
            let own = "/usr/share/kpep/cpu_"@ + hexadecimal(t as nat) + "_"@ + hexadecimal(s as nat)
                + "_"@ + hexadecimal(f as nat) + ".plist"@;
            let head = "cpu_"@ + hexadecimal(t as nat) + "_"@ + hexadecimal(s as nat) + "_"@;
            let missing = Err::<DatabaseModel, ErrorModel>(
                ErrorModel::DatabaseNotFound { cpu_type: t, cpu_subtype: s, cpu_family: f },
            );
            let known = type_ret == 0 && subtype_ret == 0 && family_ret == 0;
            let end = system.run(LoadModel::CpuType, 6);
            &&& type_ret != 0 ==> end == Some(
                Err::<DatabaseModel, ErrorModel>(
                    ErrorModel::SysctlError("hw.cputype: errno "@ + type_error),
                ),
            )
            &&& type_ret == 0 && subtype_ret != 0 ==> end == Some(
                Err::<DatabaseModel, ErrorModel>(
                    ErrorModel::SysctlError("hw.cpusubtype: errno "@ + subtype_error),
                ),
            )
            &&& type_ret == 0 && subtype_ret == 0 && family_ret != 0 ==> end == Some(
                Err::<DatabaseModel, ErrorModel>(
                    ErrorModel::SysctlError("hw.cpufamily: errno "@ + family_error),
                ),
            )
            &&& known && (system.exists)(own) ==> end == Some(
                database_in_file(own, (system.file)(own, None)),
            )
            &&& known && !(system.exists)(own) && (system.listing)("/usr/share/kpep"@) is None
                ==> end == Some(missing)
            &&& known && !(system.exists)(own) ==> ((system.listing)("/usr/share/kpep"@) matches Some(
                names,
            ) ==> {
                &&& 0 <= i < names.len() && head.is_prefix_of(names[i]) && ".plist"@.is_suffix_of(
                    names[i],
                ) && (forall|j: int|
                    0 <= j < i ==> !(head.is_prefix_of(#[trigger] names[j])
                        && ".plist"@.is_suffix_of(names[j]))) ==> end == Some(
                    database_in_file(
                        "/usr/share/kpep/"@ + names[i],
                        (system.file)("/usr/share/kpep/"@ + names[i], Some(i)),
                    ),
                )
                &&& (forall|j: int|
                    0 <= j < names.len() ==> !(head.is_prefix_of(#[trigger] names[j])
                        && ".plist"@.is_suffix_of(names[j]))) ==> end == Some(missing)
            })
        }),
{
    let (type_ret, t, type_error) = (system.sysctl)("hw.cputype"@);
    let (subtype_ret, s, subtype_error) = (system.sysctl)("hw.cpusubtype"@);
    let (family_ret, f, family_error) = (system.sysctl)("hw.cpufamily"@);
    lemma_load_ends(system);
    lemma_own_path(t, s, f);
    lemma_query_errors(type_error, subtype_error, family_error);
    reveal_strlit("/usr/share/kpep");
    reveal_strlit("/");
    reveal_strlit("/usr/share/kpep/");
    assert("/usr/share/kpep/"@ =~= "/usr/share/kpep"@ + "/"@);
    if let Some(names) = (system.listing)("/usr/share/kpep"@) {
        if 0 <= i < names.len() && forall|j: int|
            0 <= j < i ==> !serves(#[trigger] names[j], t, s) {
            lemma_first_serving_is_first(names, t, s, i);
        }
        if forall|j: int| 0 <= j < names.len() ==> !serves(#[trigger] names[j], t, s) {
            lemma_first_serving_is_first(names, t, s, names.len() as int);
        }
    }
}

proof fn lemma_query_errors(a: Seq<char>, b: Seq<char>, c: Seq<char>)
    ensures
        "hw.cputype"@ + ": errno "@ + a == "hw.cputype: errno "@ + a,
        "hw.cpusubtype"@ + ": errno "@ + b == "hw.cpusubtype: errno "@ + b,
        "hw.cpufamily"@ + ": errno "@ + c == "hw.cpufamily: errno "@ + c,
{
    reveal_strlit(": errno ");
    reveal_strlit("hw.cputype");
    reveal_strlit("hw.cpusubtype");
    reveal_strlit("hw.cpufamily");
    reveal_strlit("hw.cputype: errno ");
    reveal_strlit("hw.cpusubtype: errno ");
    reveal_strlit("hw.cpufamily: errno ");
    assert("hw.cputype"@ + ": errno "@ =~= "hw.cputype: errno "@);
    assert("hw.cpusubtype"@ + ": errno "@ =~= "hw.cpusubtype: errno "@);
    assert("hw.cpufamily"@ + ": errno "@ =~= "hw.cpufamily: errno "@);
}

/// Contracts speak of what the system is asked by the question itself.
pub proof fn lemma_requests_show_questions(what: String, i: usize)
    ensures
        LoadRequest::ReadSysctl(what)@ == RequestModel::ReadSysctl(what@),
        LoadRequest::CheckPath(what)@ == RequestModel::CheckPath(what@),
        LoadRequest::ListDirectory(what)@ == RequestModel::ListDirectory(what@),
        LoadRequest::ReadFile(what, None)@ == RequestModel::ReadFile(what@, None),
        LoadRequest::ReadFile(what, Some(i))@ == RequestModel::ReadFile(what@, Some(i as int)),
{
}

/// Contracts speak of what the system answers by the answer itself.
pub proof fn lemma_replies_show_answers(
    ret: i32,
    value: u32,
    error: String,
    there: bool,
    names: Vec<String>,
    bytes: Vec<u8>,
)
    ensures
        (LoadReply::Sysctl { ret, value, error })@ == (ReplyModel::Sysctl {
            ret,
            value,
            error: error@,
        }),
        LoadReply::Exists(there)@ == ReplyModel::Exists(there),
        LoadReply::Listing(None)@ == ReplyModel::Listing(None),
        LoadReply::Listing(Some(names))@ == ReplyModel::Listing(Some(texts(names@))),
        LoadReply::File(Ok(bytes))@ == ReplyModel::File(Ok(bytes@)),
        LoadReply::File(Err(error))@ == ReplyModel::File(Err(error@)),
{
}

} // verus!
