//! The command lines of the programs around the index.
use crate::decimal::{number_of, parse_number};
use crate::types::Metric;
use vstd::prelude::*;

verus! {

/// A program with a command line of its own.
#[derive(Debug, Clone, Copy, PartialEq, Eq, Structural)]
pub enum Program {
    Build,
    IvfBench,
    MstgBench,
}

/// What an argument is.
#[derive(Debug, Clone, Copy, PartialEq, Eq, Structural)]
pub enum Kind {
    Unknown,
    /// An option without a value.
    Flag,
    /// An option with any text as its value.
    Text,
    /// An option with a number up to the largest size.
    Size,
    /// An option with a number up to the largest 64-bit number.
    Seed,
    /// An option with a floating-point number.
    Float,
    /// An option with `v3` or `v4`.
    Format,
    /// An option with `fs` or `s3`.
    Store,
}

/// Why a command line is refused.
#[derive(Debug)]
pub enum ArgsError {
    UnknownArgument(String),
    UnknownFormat(String),
    UnknownStore(String),
    MissingValue(String),
    InvalidNumber(String),
    InvalidFloat(String),
    Required(&'static str),
}

/// Why a command line is refused, with its texts as sequences.
pub enum ArgsFault {
    UnknownArgument(Seq<char>),
    UnknownFormat(Seq<char>),
    UnknownStore(Seq<char>),
    MissingValue(Seq<char>),
    InvalidNumber(Seq<char>),
    InvalidFloat(Seq<char>),
    Required(&'static str),
}

impl View for ArgsError {
    type V = ArgsFault;

    open spec fn view(&self) -> ArgsFault {
        match *self {
            ArgsError::UnknownArgument(s) => ArgsFault::UnknownArgument(s@),
            ArgsError::UnknownFormat(s) => ArgsFault::UnknownFormat(s@),
            ArgsError::UnknownStore(s) => ArgsFault::UnknownStore(s@),
            ArgsError::MissingValue(s) => ArgsFault::MissingValue(s@),
            ArgsError::InvalidNumber(s) => ArgsFault::InvalidNumber(s@),
            ArgsError::InvalidFloat(s) => ArgsFault::InvalidFloat(s@),
            ArgsError::Required(why) => ArgsFault::Required(why),
        }
    }
}

/// Whether two texts are the same.
fn same_text(a: &str, b: &str) -> (r: bool)
    ensures
        r == (a@ == b@),
{
    let n: usize = a.unicode_len();
    if n != b.unicode_len() {
        return false;
    }
    let mut i: usize = 0;
    while i < n
        invariant
            i <= n,
            n == a@.len(),
            n == b@.len(),
            forall|j: int| 0 <= j < i ==> #[trigger] a@[j] == b@[j],
        decreases n - i,
    {
        if a.get_char(i) != b.get_char(i) {
            return false;
        }
        i += 1;
    }
    assert(a@ =~= b@);
    true
}

/// What an argument of the index builder is.
pub open spec fn build_kind(name: Seq<char>) -> Kind {
    if name == "--base"@ {
        Kind::Text
    } else if name == "--centroids"@ {
        Kind::Text
    } else if name == "--assignments"@ {
        Kind::Text
    } else if name == "--nlist"@ {
        Kind::Size
    } else if name == "--bits"@ {
        Kind::Size
    } else if name == "--save"@ {
        Kind::Text
    } else if name == "--load"@ {
        Kind::Text
    } else if name == "--insert"@ {
        Kind::Text
    } else if name == "--format"@ {
        Kind::Format
    } else if name == "--faster-config"@ {
        Kind::Flag
    } else if name == "--ip"@ {
        Kind::Flag
    } else if name == "--seed"@ {
        Kind::Seed
    } else if name == "--limit"@ {
        Kind::Size
    } else if name == "--stream"@ {
        Kind::Flag
    } else if name == "--stream-batch-size"@ {
        Kind::Size
    } else if name == "--store"@ {
        Kind::Store
    } else if name == "--s3-endpoint"@ {
        Kind::Text
    } else if name == "--s3-bucket"@ {
        Kind::Text
    } else if name == "--s3-access-key"@ {
        Kind::Text
    } else if name == "--s3-secret-key"@ {
        Kind::Text
    } else if name == "--s3-allow-http"@ {
        Kind::Flag
    } else {
        Kind::Unknown
    }
}

/// What an argument of the IVF benchmark is.
pub open spec fn ivf_bench_kind(name: Seq<char>) -> Kind {
    if name == "--index"@ {
        Kind::Text
    } else if name == "--queries"@ {
        Kind::Text
    } else if name == "--gt"@ {
        Kind::Text
    } else if name == "--topk"@ {
        Kind::Size
    } else if name == "--v4"@ {
        Kind::Flag
    } else if name == "--store"@ {
        Kind::Store
    } else if name == "--s3-endpoint"@ {
        Kind::Text
    } else if name == "--s3-bucket"@ {
        Kind::Text
    } else if name == "--s3-access-key"@ {
        Kind::Text
    } else if name == "--s3-secret-key"@ {
        Kind::Text
    } else {
        Kind::Unknown
    }
}

/// What an argument of the MSTG benchmark is.
pub open spec fn mstg_bench_kind(name: Seq<char>) -> Kind {
    if name == "--base"@ {
        Kind::Text
    } else if name == "--queries"@ {
        Kind::Text
    } else if name == "--gt"@ {
        Kind::Text
    } else if name == "--save"@ {
        Kind::Text
    } else if name == "--load"@ {
        Kind::Text
    } else if name == "--bits"@ {
        Kind::Size
    } else if name == "--max-posting-size"@ {
        Kind::Size
    } else if name == "--closure-epsilon"@ {
        Kind::Float
    } else if name == "--max-replicas"@ {
        Kind::Size
    } else if name == "--centroid-precision"@ {
        Kind::Text
    } else if name == "--topk"@ {
        Kind::Size
    } else if name == "--seed"@ {
        Kind::Seed
    } else if name == "--limit"@ {
        Kind::Size
    } else {
        Kind::Unknown
    }
}

/// What an argument of a program is.
pub open spec fn kind_in(program: Program, name: Seq<char>) -> Kind {
    match program {
        Program::Build => build_kind(name),
        Program::IvfBench => ivf_bench_kind(name),
        Program::MstgBench => mstg_bench_kind(name),
    }
}

fn find_build_kind(name: &str) -> (k: Kind)
    ensures
        k == build_kind(name@),
{
    if same_text(name, "--base") {
        Kind::Text
    } else if same_text(name, "--centroids") {
        Kind::Text
    } else if same_text(name, "--assignments") {
        Kind::Text
    } else if same_text(name, "--nlist") {
        Kind::Size
    } else if same_text(name, "--bits") {
        Kind::Size
    } else if same_text(name, "--save") {
        Kind::Text
    } else if same_text(name, "--load") {
        Kind::Text
    } else if same_text(name, "--insert") {
        Kind::Text
    } else if same_text(name, "--format") {
        Kind::Format
    } else if same_text(name, "--faster-config") {
        Kind::Flag
    } else if same_text(name, "--ip") {
        Kind::Flag
    } else if same_text(name, "--seed") {
        Kind::Seed
    } else if same_text(name, "--limit") {
        Kind::Size
    } else if same_text(name, "--stream") {
        Kind::Flag
    } else if same_text(name, "--stream-batch-size") {
        Kind::Size
    } else if same_text(name, "--store") {
        Kind::Store
    } else if same_text(name, "--s3-endpoint") {
        Kind::Text
    } else if same_text(name, "--s3-bucket") {
        Kind::Text
    } else if same_text(name, "--s3-access-key") {
        Kind::Text
    } else if same_text(name, "--s3-secret-key") {
        Kind::Text
    } else if same_text(name, "--s3-allow-http") {
        Kind::Flag
    } else {
        Kind::Unknown
    }
}

fn find_ivf_bench_kind(name: &str) -> (k: Kind)
    ensures
        k == ivf_bench_kind(name@),
{
    if same_text(name, "--index") {
        Kind::Text
    } else if same_text(name, "--queries") {
        Kind::Text
    } else if same_text(name, "--gt") {
        Kind::Text
    } else if same_text(name, "--topk") {
        Kind::Size
    } else if same_text(name, "--v4") {
        Kind::Flag
    } else if same_text(name, "--store") {
        Kind::Store
    } else if same_text(name, "--s3-endpoint") {
        Kind::Text
    } else if same_text(name, "--s3-bucket") {
        Kind::Text
    } else if same_text(name, "--s3-access-key") {
        Kind::Text
    } else if same_text(name, "--s3-secret-key") {
        Kind::Text
    } else {
        Kind::Unknown
    }
}

fn find_mstg_bench_kind(name: &str) -> (k: Kind)
    ensures
        k == mstg_bench_kind(name@),
{
    if same_text(name, "--base") {
        Kind::Text
    } else if same_text(name, "--queries") {
        Kind::Text
    } else if same_text(name, "--gt") {
        Kind::Text
    } else if same_text(name, "--save") {
        Kind::Text
    } else if same_text(name, "--load") {
        Kind::Text
    } else if same_text(name, "--bits") {
        Kind::Size
    } else if same_text(name, "--max-posting-size") {
        Kind::Size
    } else if same_text(name, "--closure-epsilon") {
        Kind::Float
    } else if same_text(name, "--max-replicas") {
        Kind::Size
    } else if same_text(name, "--centroid-precision") {
        Kind::Text
    } else if same_text(name, "--topk") {
        Kind::Size
    } else if same_text(name, "--seed") {
        Kind::Seed
    } else if same_text(name, "--limit") {
        Kind::Size
    } else {
        Kind::Unknown
    }
}

fn find_kind(program: Program, name: &str) -> (k: Kind)
    ensures
        k == kind_in(program, name@),
{
    match program {
        Program::Build => find_build_kind(name),
        Program::IvfBench => find_ivf_bench_kind(name),
        Program::MstgBench => find_mstg_bench_kind(name),
    }
}

/// Why a value is refused, if so. What reads as a floating-point number is for the caller to say.
pub open spec fn value_fault(kind: Kind, value: Seq<char>, float_like: bool) -> Option<ArgsFault> {
    match kind {
        Kind::Size => if number_of(value, usize::MAX as int) is None {
            Some(ArgsFault::InvalidNumber(value))
        } else {
            None
        },
        Kind::Seed => if number_of(value, u64::MAX as int) is None {
            Some(ArgsFault::InvalidNumber(value))
        } else {
            None
        },
        Kind::Float => if !float_like {
            Some(ArgsFault::InvalidFloat(value))
        } else {
            None
        },
        Kind::Format => if value != "v3"@ && value != "v4"@ {
            Some(ArgsFault::UnknownFormat(value))
        } else {
            None
        },
        Kind::Store => if value != "fs"@ && value != "s3"@ {
            Some(ArgsFault::UnknownStore(value))
        } else {
            None
        },
        _ => None,
    }
}

fn check_value(kind: Kind, value: &String, float_like: bool) -> (r: Option<ArgsError>)
    ensures
        match value_fault(kind, value@, float_like) {
            Some(fault) => r matches Some(e) && e@ == fault,
            None => r is None,
        },
{
    match kind {
        Kind::Size => if parse_number(value.as_str(), usize::MAX as u64).is_none() {
            Some(ArgsError::InvalidNumber(value.clone()))
        } else {
            None
        },
        Kind::Seed => if parse_number(value.as_str(), u64::MAX).is_none() {
            Some(ArgsError::InvalidNumber(value.clone()))
        } else {
            None
        },
        Kind::Float => if !float_like {
            Some(ArgsError::InvalidFloat(value.clone()))
        } else {
            None
        },
        Kind::Format => if !same_text(value.as_str(), "v3") && !same_text(value.as_str(), "v4") {
            Some(ArgsError::UnknownFormat(value.clone()))
        } else {
            None
        },
        Kind::Store => if !same_text(value.as_str(), "fs") && !same_text(value.as_str(), "s3") {
            Some(ArgsError::UnknownStore(value.clone()))
        } else {
            None
        },
        _ => None,
    }
}

/// The texts of arguments.
pub open spec fn arg_texts(args: Seq<String>) -> Seq<Seq<char>> {
    args.map_values(|s: String| s@)
}

/// The options that arguments give from `i` on, with those given before; the last value of an
/// option counts, and a flag has an empty one. The first argument that is wrong refuses the rest.
pub open spec fn options_of(
    program: Program,
    args: Seq<Seq<char>>,
    float_like: Seq<bool>,
    i: int,
    given: Map<Seq<char>, Seq<char>>,
) -> Result<Map<Seq<char>, Seq<char>>, ArgsFault>
    decreases args.len() - i,
{
    if i >= args.len() {
        Ok(given)
    } else {
        let kind = kind_in(program, args[i]);
        if kind == Kind::Unknown {
            Err(ArgsFault::UnknownArgument(args[i]))
        } else if kind == Kind::Flag {
            options_of(program, args, float_like, i + 1, given.insert(args[i], Seq::empty()))
        } else if i + 1 >= args.len() {
            Err(ArgsFault::MissingValue(args[i]))
        } else {
            match value_fault(kind, args[i + 1], float_like[i + 1]) {
                Some(fault) => Err(fault),
                None => options_of(
                    program,
                    args,
                    float_like,
                    i + 2,
                    given.insert(args[i], args[i + 1]),
                ),
            }
        }
    }
}

/// An option that was given.
#[derive(Debug)]
struct Given {
    name: String,
    value: String,
}

/// The map of options that were given one after the other.
spec fn given_map(given: Seq<Given>) -> Map<Seq<char>, Seq<char>>
    decreases given.len(),
{
    if given.len() == 0 {
        Map::empty()
    } else {
        given_map(given.drop_last()).insert(given.last().name@, given.last().value@)
    }
}

/// The value of an option.
pub open spec fn text_of(given: Map<Seq<char>, Seq<char>>, name: Seq<char>) -> Option<Seq<char>> {
    if given.contains_key(name) {
        Some(given[name])
    } else {
        None
    }
}

/// The value of an option, or a default.
pub open spec fn text_or(
    given: Map<Seq<char>, Seq<char>>,
    name: Seq<char>,
    default: Seq<char>,
) -> Seq<char> {
    if given.contains_key(name) {
        given[name]
    } else {
        default
    }
}

/// The number of an option.
pub open spec fn size_of(given: Map<Seq<char>, Seq<char>>, name: Seq<char>) -> Option<usize> {
    if given.contains_key(name) {
        match number_of(given[name], usize::MAX as int) {
            Some(n) => Some(n as usize),
            None => None,
        }
    } else {
        None
    }
}

/// The number of an option, or a default.
pub open spec fn size_or(
    given: Map<Seq<char>, Seq<char>>,
    name: Seq<char>,
    default: usize,
) -> usize {
    match size_of(given, name) {
        Some(n) => n,
        None => default,
    }
}

/// The 64-bit number of an option, or a default.
pub open spec fn seed_or(given: Map<Seq<char>, Seq<char>>, name: Seq<char>, default: u64) -> u64 {
    if given.contains_key(name) {
        match number_of(given[name], u64::MAX as int) {
            Some(n) => n as u64,
            None => default,
        }
    } else {
        default
    }
}

fn find_text(given: &Vec<Given>, name: &str) -> (r: Option<String>)
    ensures
        match text_of(given_map(given@), name@) {
            Some(s) => r matches Some(t) && t@ == s,
            None => r is None,
        },
{
    let mut i: usize = given.len();
    assert(given@.take(i as int) =~= given@);
    while i > 0
        invariant
            i <= given@.len(),
            text_of(given_map(given@), name@) == text_of(given_map(given@.take(i as int)), name@),
        decreases i,
    {
        let ghost front = given@.take(i as int);
        assert(front.drop_last() =~= given@.take(i - 1));
        assert(front.last() == given@[i - 1]);
        i -= 1;
        if same_text(given[i].name.as_str(), name) {
            return Some(given[i].value.clone());
        }
    }
    assert(given@.take(0) =~= Seq::empty());
    None
}

fn find_text_or(given: &Vec<Given>, name: &str, default: &str) -> (r: String)
    ensures
        r@ == text_or(given_map(given@), name@, default@),
{
    match find_text(given, name) {
        Some(s) => s,
        None => String::from_str(default),
    }
}

fn find_flag(given: &Vec<Given>, name: &str) -> (r: bool)
    ensures
        r == given_map(given@).contains_key(name@),
{
    find_text(given, name).is_some()
}

fn find_size(given: &Vec<Given>, name: &str) -> (r: Option<usize>)
    ensures
        r == size_of(given_map(given@), name@),
{
    match find_text(given, name) {
        Some(s) => match parse_number(s.as_str(), usize::MAX as u64) {
            Some(n) => Some(n as usize),
            None => None,
        },
        None => None,
    }
}

fn find_size_or(given: &Vec<Given>, name: &str, default: usize) -> (r: usize)
    ensures
        r == size_or(given_map(given@), name@, default),
{
    match find_size(given, name) {
        Some(n) => n,
        None => default,
    }
}

fn find_seed_or(given: &Vec<Given>, name: &str, default: u64) -> (r: u64)
    ensures
        r == seed_or(given_map(given@), name@, default),
{
    match find_text(given, name) {
        Some(s) => match parse_number(s.as_str(), u64::MAX) {
            Some(n) => n,
            None => default,
        },
        None => default,
    }
}

proof fn lemma_given_push(given: Seq<Given>, g: Given)
    ensures
        given_map(given.push(g)) == given_map(given).insert(g.name@, g.value@),
{
    assert(given.push(g).drop_last() =~= given);
}

fn read_options(program: Program, args: &[String], float_like: &[bool]) -> (r: Result<
    Vec<Given>,
    ArgsError,
>)
    requires
        float_like@.len() == args@.len(),
    ensures
        match options_of(program, arg_texts(args@), float_like@, 1, Map::empty()) {
            Ok(given) => r is Ok && given_map(r->Ok_0@) == given,
            Err(fault) => r is Err && r->Err_0@ == fault,
        },
{
    let ghost texts = arg_texts(args@);
    let mut given: Vec<Given> = Vec::new();
    let total: usize = args.len();
    let mut i: usize = 1;
    while i < total
        invariant
            1 <= i,
            total == args@.len(),
            float_like@.len() == args@.len(),
            texts == arg_texts(args@),
            options_of(program, texts, float_like@, 1, Map::empty()) == options_of(
                program,
                texts,
                float_like@,
                i as int,
                given_map(given@),
            ),
        decreases total - i,
    {
        assert(texts[i as int] == args@[i as int]@);
        let kind: Kind = find_kind(program, args[i].as_str());
        let name: String = args[i].clone();
        if kind == Kind::Unknown {
            return Err(ArgsError::UnknownArgument(name));
        }
        if kind == Kind::Flag {
            let g = Given { name, value: String::new() };
            proof {
                lemma_given_push(given@, g);
            }
            given.push(g);
            i += 1;
        } else {
            if i + 1 >= total {
                return Err(ArgsError::MissingValue(name));
            }
            assert(texts[i + 1] == args@[i + 1]@);
            if let Some(e) = check_value(kind, &args[i + 1], float_like[i + 1]) {
                return Err(e);
            }
            let g = Given { name, value: args[i + 1].clone() };
            proof {
                lemma_given_push(given@, g);
            }
            given.push(g);
            i += 2;
        }
    }
    Ok(given)
}

/// The format that an index is saved in.
#[derive(Debug, Clone, Copy, PartialEq, Eq, Structural)]
pub enum SaveFormat {
    V3,
    V4,
}

/// Where segments are stored.
#[derive(Debug, Clone, Copy, PartialEq, Eq, Structural)]
pub enum StoreType {
    Fs,
    S3,
}

/// The format that options choose: V3 unless they say `v4`.
pub open spec fn format_of(given: Map<Seq<char>, Seq<char>>) -> SaveFormat {
    if text_of(given, "--format"@) == Some("v4"@) {
        SaveFormat::V4
    } else {
        SaveFormat::V3
    }
}

/// The store that options choose: the file system unless they say `s3`.
pub open spec fn store_of(given: Map<Seq<char>, Seq<char>>) -> StoreType {
    if text_of(given, "--store"@) == Some("s3"@) {
        StoreType::S3
    } else {
        StoreType::Fs
    }
}

/// The metric that options choose: L2 unless they say inner product.
pub open spec fn metric_of(given: Map<Seq<char>, Seq<char>>) -> Metric {
    if given.contains_key("--ip"@) {
        Metric::InnerProduct
    } else {
        Metric::L2
    }
}

fn find_format(given: &Vec<Given>) -> (r: SaveFormat)
    ensures
        r == format_of(given_map(given@)),
{
    match find_text(given, "--format") {
        Some(s) => if same_text(s.as_str(), "v4") {
            SaveFormat::V4
        } else {
            SaveFormat::V3
        },
        None => SaveFormat::V3,
    }
}

fn find_store(given: &Vec<Given>) -> (r: StoreType)
    ensures
        r == store_of(given_map(given@)),
{
    match find_text(given, "--store") {
        Some(s) => if same_text(s.as_str(), "s3") {
            StoreType::S3
        } else {
            StoreType::Fs
        },
        None => StoreType::Fs,
    }
}

fn find_metric(given: &Vec<Given>) -> (r: Metric)
    ensures
        r == metric_of(given_map(given@)),
{
    if find_flag(given, "--ip") {
        Metric::InnerProduct
    } else {
        Metric::L2
    }
}

/// The text of an optional string.
pub open spec fn opt_text(s: Option<String>) -> Option<Seq<char>> {
    match s {
        Some(t) => Some(t@),
        None => None,
    }
}

/// The command line of the index builder.
#[derive(Debug)]
pub struct Args {
    pub base: Option<String>,
    pub centroids: Option<String>,
    pub assignments: Option<String>,
    pub nlist: Option<usize>,
    pub bits: usize,
    pub save: Option<String>,
    pub load: Option<String>,
    pub insert: Option<String>,
    pub format: SaveFormat,
    pub faster_config: bool,
    pub metric: Metric,
    pub seed: u64,
    pub limit: Option<usize>,
    pub stream: bool,
    pub stream_batch_size: usize,
    pub store_type: StoreType,
    pub s3_endpoint: String,
    pub s3_bucket: String,
    pub s3_access_key: String,
    pub s3_secret_key: String,
    pub s3_allow_http: bool,
}

/// What the command line of the index builder says.
pub struct ArgsModel {
    pub base: Option<Seq<char>>,
    pub centroids: Option<Seq<char>>,
    pub assignments: Option<Seq<char>>,
    pub nlist: Option<usize>,
    pub bits: usize,
    pub save: Option<Seq<char>>,
    pub load: Option<Seq<char>>,
    pub insert: Option<Seq<char>>,
    pub format: SaveFormat,
    pub faster_config: bool,
    pub metric: Metric,
    pub seed: u64,
    pub limit: Option<usize>,
    pub stream: bool,
    pub stream_batch_size: usize,
    pub store_type: StoreType,
    pub s3_endpoint: Seq<char>,
    pub s3_bucket: Seq<char>,
    pub s3_access_key: Seq<char>,
    pub s3_secret_key: Seq<char>,
    pub s3_allow_http: bool,
}

impl View for Args {
    type V = ArgsModel;

    open spec fn view(&self) -> ArgsModel {
        ArgsModel {
            base: opt_text(self.base),
            centroids: opt_text(self.centroids),
            assignments: opt_text(self.assignments),
            nlist: self.nlist,
            bits: self.bits,
            save: opt_text(self.save),
            load: opt_text(self.load),
            insert: opt_text(self.insert),
            format: self.format,
            faster_config: self.faster_config,
            metric: self.metric,
            seed: self.seed,
            limit: self.limit,
            stream: self.stream,
            stream_batch_size: self.stream_batch_size,
            store_type: self.store_type,
            s3_endpoint: self.s3_endpoint@,
            s3_bucket: self.s3_bucket@,
            s3_access_key: self.s3_access_key@,
            s3_secret_key: self.s3_secret_key@,
            s3_allow_http: self.s3_allow_http,
        }
    }
}

/// What the options of the index builder say.
pub open spec fn args_of(given: Map<Seq<char>, Seq<char>>) -> ArgsModel {
    ArgsModel {
        base: text_of(given, "--base"@),
        centroids: text_of(given, "--centroids"@),
        assignments: text_of(given, "--assignments"@),
        nlist: size_of(given, "--nlist"@),
        bits: size_or(given, "--bits"@, 7),
        save: text_of(given, "--save"@),
        load: text_of(given, "--load"@),
        insert: text_of(given, "--insert"@),
        format: format_of(given),
        faster_config: given.contains_key("--faster-config"@),
        metric: metric_of(given),
        seed: seed_or(given, "--seed"@, 42),
        limit: size_of(given, "--limit"@),
        stream: given.contains_key("--stream"@),
        stream_batch_size: size_or(given, "--stream-batch-size"@, 100000),
        store_type: store_of(given),
        s3_endpoint: text_or(given, "--s3-endpoint"@, "http://localhost:9000"@),
        s3_bucket: text_or(given, "--s3-bucket"@, ""@),
        s3_access_key: text_or(given, "--s3-access-key"@, "minioadmin1"@),
        s3_secret_key: text_or(given, "--s3-secret-key"@, "minioadmin1"@),
        s3_allow_http: true,
    }
}

/// What the index builder lacks, if anything: without an index to load it needs vectors and a
/// place to save to, and an S3 store needs a bucket.
pub open spec fn args_lack(m: ArgsModel) -> Option<&'static str> {
    if m.load is None && m.base is None {
        Some("--base required")
    } else if m.load is None && m.save is None {
        Some("--save required")
    } else if m.store_type == StoreType::S3 && m.s3_bucket.len() == 0 {
        Some("--s3-bucket required for S3 store")
    } else {
        None
    }
}

/// Reads the command line of the index builder, the program name in front. The caller says which
/// arguments read as floating-point numbers.
pub fn parse_args(args: &[String], float_like: &[bool]) -> (r: Result<Args, ArgsError>)
    requires
        float_like@.len() == args@.len(),
    ensures
        match options_of(Program::Build, arg_texts(args@), float_like@, 1, Map::empty()) {
            Err(fault) => r is Err && r->Err_0@ == fault,
            Ok(given) => match args_lack(args_of(given)) {
                Some(why) => r is Err && r->Err_0@ == ArgsFault::Required(why),
                None => r is Ok && r->Ok_0@ == args_of(given),
            },
        },
{
    let given: Vec<Given> = match read_options(Program::Build, args, float_like) {
        Ok(given) => given,
        Err(e) => return Err(e),
    };
    let parsed = Args {
        base: find_text(&given, "--base"),
        centroids: find_text(&given, "--centroids"),
        assignments: find_text(&given, "--assignments"),
        nlist: find_size(&given, "--nlist"),
        bits: find_size_or(&given, "--bits", 7),
        save: find_text(&given, "--save"),
        load: find_text(&given, "--load"),
        insert: find_text(&given, "--insert"),
        format: find_format(&given),
        faster_config: find_flag(&given, "--faster-config"),
        metric: find_metric(&given),
        seed: find_seed_or(&given, "--seed", 42),
        limit: find_size(&given, "--limit"),
        stream: find_flag(&given, "--stream"),
        stream_batch_size: find_size_or(&given, "--stream-batch-size", 100000),
        store_type: find_store(&given),
        s3_endpoint: find_text_or(&given, "--s3-endpoint", "http://localhost:9000"),
        s3_bucket: find_text_or(&given, "--s3-bucket", ""),
        s3_access_key: find_text_or(&given, "--s3-access-key", "minioadmin1"),
        s3_secret_key: find_text_or(&given, "--s3-secret-key", "minioadmin1"),
        s3_allow_http: true,
    };
    assert(parsed@ == args_of(given_map(given@)));
    if parsed.load.is_none() {
        if parsed.base.is_none() {
            return Err(ArgsError::Required("--base required"));
        }
        if parsed.save.is_none() {
            return Err(ArgsError::Required("--save required"));
        }
    }
    if parsed.store_type == StoreType::S3 && parsed.s3_bucket.as_str().unicode_len() == 0 {
        return Err(ArgsError::Required("--s3-bucket required for S3 store"));
    }
    Ok(parsed)
}

/// The command line of the IVF benchmark.
#[derive(Debug)]
pub struct BenchArgs {
    pub index: String,
    pub queries: String,
    pub gt: String,
    pub topk: usize,
    pub v4: bool,
    pub store_type: StoreType,
    pub s3_endpoint: String,
    pub s3_bucket: String,
    pub s3_access_key: String,
    pub s3_secret_key: String,
}

/// What the command line of the IVF benchmark says.
pub struct BenchArgsModel {
    pub index: Seq<char>,
    pub queries: Seq<char>,
    pub gt: Seq<char>,
    pub topk: usize,
    pub v4: bool,
    pub store_type: StoreType,
    pub s3_endpoint: Seq<char>,
    pub s3_bucket: Seq<char>,
    pub s3_access_key: Seq<char>,
    pub s3_secret_key: Seq<char>,
}

impl View for BenchArgs {
    type V = BenchArgsModel;

    open spec fn view(&self) -> BenchArgsModel {
        BenchArgsModel {
            index: self.index@,
            queries: self.queries@,
            gt: self.gt@,
            topk: self.topk,
            v4: self.v4,
            store_type: self.store_type,
            s3_endpoint: self.s3_endpoint@,
            s3_bucket: self.s3_bucket@,
            s3_access_key: self.s3_access_key@,
            s3_secret_key: self.s3_secret_key@,
        }
    }
}

/// What the options of the IVF benchmark say.
pub open spec fn bench_args_of(given: Map<Seq<char>, Seq<char>>) -> BenchArgsModel {
    BenchArgsModel {
        index: text_or(given, "--index"@, Seq::empty()),
        queries: text_or(given, "--queries"@, Seq::empty()),
        gt: text_or(given, "--gt"@, Seq::empty()),
        topk: size_or(given, "--topk"@, 100),
        v4: given.contains_key("--v4"@),
        store_type: store_of(given),
        s3_endpoint: text_or(given, "--s3-endpoint"@, "http://localhost:9000"@),
        s3_bucket: text_or(given, "--s3-bucket"@, ""@),
        s3_access_key: text_or(given, "--s3-access-key"@, "minioadmin1"@),
        s3_secret_key: text_or(given, "--s3-secret-key"@, "minioadmin1"@),
    }
}

/// What the IVF benchmark lacks, if anything.
pub open spec fn bench_args_lack(given: Map<Seq<char>, Seq<char>>) -> Option<&'static str> {
    if !given.contains_key("--index"@) {
        Some("--index <path> is required")
    } else if !given.contains_key("--queries"@) {
        Some("--queries <path> is required")
    } else if !given.contains_key("--gt"@) {
        Some("--gt <path> is required")
    } else {
        None
    }
}

/// Reads the command line of the IVF benchmark, the program name in front. The caller says which
/// arguments read as floating-point numbers.
pub fn parse_bench_args(args: &[String], float_like: &[bool]) -> (r: Result<BenchArgs, ArgsError>)
    requires
        float_like@.len() == args@.len(),
    ensures
        match options_of(Program::IvfBench, arg_texts(args@), float_like@, 1, Map::empty()) {
            Err(fault) => r is Err && r->Err_0@ == fault,
            Ok(given) => match bench_args_lack(given) {
                Some(why) => r is Err && r->Err_0@ == ArgsFault::Required(why),
                None => r is Ok && r->Ok_0@ == bench_args_of(given),
            },
        },
{
    let given: Vec<Given> = match read_options(Program::IvfBench, args, float_like) {
        Ok(given) => given,
        Err(e) => return Err(e),
    };
    let index: String = match find_text(&given, "--index") {
        Some(s) => s,
        None => return Err(ArgsError::Required("--index <path> is required")),
    };
    let queries: String = match find_text(&given, "--queries") {
        Some(s) => s,
        None => return Err(ArgsError::Required("--queries <path> is required")),
    };
    let gt: String = match find_text(&given, "--gt") {
        Some(s) => s,
        None => return Err(ArgsError::Required("--gt <path> is required")),
    };
    Ok(
        BenchArgs {
            index,
            queries,
            gt,
            topk: find_size_or(&given, "--topk", 100),
            v4: find_flag(&given, "--v4"),
            store_type: find_store(&given),
            s3_endpoint: find_text_or(&given, "--s3-endpoint", "http://localhost:9000"),
            s3_bucket: find_text_or(&given, "--s3-bucket", ""),
            s3_access_key: find_text_or(&given, "--s3-access-key", "minioadmin1"),
            s3_secret_key: find_text_or(&given, "--s3-secret-key", "minioadmin1"),
        },
    )
}

/// The command line of the MSTG benchmark.
#[derive(Debug)]
pub struct MstgArgs {
    pub base: Option<String>,
    pub queries: Option<String>,
    pub gt: Option<String>,
    pub save: String,
    pub load: Option<String>,
    pub bits: usize,
    pub max_posting_size: usize,
    pub closure_epsilon: String,
    pub max_replicas: usize,
    pub centroid_precision: String,
    pub topk: usize,
    pub seed: u64,
    pub limit: Option<usize>,
}

/// What the command line of the MSTG benchmark says.
pub struct MstgArgsModel {
    pub base: Option<Seq<char>>,
    pub queries: Option<Seq<char>>,
    pub gt: Option<Seq<char>>,
    pub save: Seq<char>,
    pub load: Option<Seq<char>>,
    pub bits: usize,
    pub max_posting_size: usize,
    pub closure_epsilon: Seq<char>,
    pub max_replicas: usize,
    pub centroid_precision: Seq<char>,
    pub topk: usize,
    pub seed: u64,
    pub limit: Option<usize>,
}

impl View for MstgArgs {
    type V = MstgArgsModel;

    open spec fn view(&self) -> MstgArgsModel {
        MstgArgsModel {
            base: opt_text(self.base),
            queries: opt_text(self.queries),
            gt: opt_text(self.gt),
            save: self.save@,
            load: opt_text(self.load),
            bits: self.bits,
            max_posting_size: self.max_posting_size,
            closure_epsilon: self.closure_epsilon@,
            max_replicas: self.max_replicas,
            centroid_precision: self.centroid_precision@,
            topk: self.topk,
            seed: self.seed,
            limit: self.limit,
        }
    }
}

/// What the options of the MSTG benchmark say.
pub open spec fn mstg_args_of(given: Map<Seq<char>, Seq<char>>) -> MstgArgsModel {
    MstgArgsModel {
        base: text_of(given, "--base"@),
        queries: text_of(given, "--queries"@),
        gt: text_of(given, "--gt"@),
        save: text_or(given, "--save"@, "data/gist/mstg_7bit"@),
        load: text_of(given, "--load"@),
        bits: size_or(given, "--bits"@, 7),
        max_posting_size: size_or(given, "--max-posting-size"@, 5000),
        closure_epsilon: text_or(given, "--closure-epsilon"@, "0.02"@),
        max_replicas: size_or(given, "--max-replicas"@, 8),
        centroid_precision: text_or(given, "--centroid-precision"@, "bf16"@),
        topk: size_or(given, "--topk"@, 100),
        seed: seed_or(given, "--seed"@, 42),
        limit: size_of(given, "--limit"@),
    }
}

/// Reads the command line of the MSTG benchmark, the program name in front. The caller says which
/// arguments read as floating-point numbers; `closure_epsilon` stays a text.
pub fn parse_mstg_args(args: &[String], float_like: &[bool]) -> (r: Result<MstgArgs, ArgsError>)
    requires
        float_like@.len() == args@.len(),
    ensures
        match options_of(Program::MstgBench, arg_texts(args@), float_like@, 1, Map::empty()) {
            Err(fault) => r is Err && r->Err_0@ == fault,
            Ok(given) => r is Ok && r->Ok_0@ == mstg_args_of(given),
        },
{
    let given: Vec<Given> = match read_options(Program::MstgBench, args, float_like) {
        Ok(given) => given,
        Err(e) => return Err(e),
    };
    Ok(
        MstgArgs {
            base: find_text(&given, "--base"),
            queries: find_text(&given, "--queries"),
            gt: find_text(&given, "--gt"),
            save: find_text_or(&given, "--save", "data/gist/mstg_7bit"),
            load: find_text(&given, "--load"),
            bits: find_size_or(&given, "--bits", 7),
            max_posting_size: find_size_or(&given, "--max-posting-size", 5000),
            closure_epsilon: find_text_or(&given, "--closure-epsilon", "0.02"),
            max_replicas: find_size_or(&given, "--max-replicas", 8),
            centroid_precision: find_text_or(&given, "--centroid-precision", "bf16"),
            topk: find_size_or(&given, "--topk", 100),
            seed: find_seed_or(&given, "--seed", 42),
            limit: find_size(&given, "--limit"),
        },
    )
}

} // verus!
