//! What the command lines say, option by option.
use crate::args::{
    args_lack, args_of, bench_args_lack, bench_args_of, build_kind, ivf_bench_kind, kind_in,
    mstg_args_of, mstg_bench_kind, options_of, size_of, size_or, seed_or, value_fault, ArgsFault,
    ArgsModel, Kind, Program, SaveFormat, StoreType,
};
use crate::decimal::{decimal, law_number_of_decimal, number_of};
use crate::types::Metric;
use vstd::prelude::*;

verus! {

/// The options of the index builder, and what each of them takes.
pub proof fn law_builder_options(name: Seq<char>)
    ensures
        build_kind(name) == Kind::Text ==> {
            ||| name == "--base"@
            ||| name == "--centroids"@
            ||| name == "--assignments"@
            ||| name == "--save"@
            ||| name == "--load"@
            ||| name == "--insert"@
            ||| name == "--s3-endpoint"@
            ||| name == "--s3-bucket"@
            ||| name == "--s3-access-key"@
            ||| name == "--s3-secret-key"@
        },
        build_kind(name) == Kind::Size ==> {
            ||| name == "--nlist"@
            ||| name == "--bits"@
            ||| name == "--limit"@
            ||| name == "--stream-batch-size"@
        },
        build_kind(name) == Kind::Format ==> {
            ||| name == "--format"@
        },
        build_kind(name) == Kind::Flag ==> {
            ||| name == "--faster-config"@
            ||| name == "--ip"@
            ||| name == "--stream"@
            ||| name == "--s3-allow-http"@
        },
        build_kind(name) == Kind::Seed ==> {
            ||| name == "--seed"@
        },
        build_kind(name) == Kind::Store ==> {
            ||| name == "--store"@
        },
        build_kind(name) != Kind::Float,
        build_kind(name) == Kind::Unknown <==> {
            &&& name != "--base"@
            &&& name != "--centroids"@
            &&& name != "--assignments"@
            &&& name != "--nlist"@
            &&& name != "--bits"@
            &&& name != "--save"@
            &&& name != "--load"@
            &&& name != "--insert"@
            &&& name != "--format"@
            &&& name != "--faster-config"@
            &&& name != "--ip"@
            &&& name != "--seed"@
            &&& name != "--limit"@
            &&& name != "--stream"@
            &&& name != "--stream-batch-size"@
            &&& name != "--store"@
            &&& name != "--s3-endpoint"@
            &&& name != "--s3-bucket"@
            &&& name != "--s3-access-key"@
            &&& name != "--s3-secret-key"@
            &&& name != "--s3-allow-http"@
        },
{
}

/// The options of the IVF benchmark, and what each of them takes.
pub proof fn law_ivf_bench_options(name: Seq<char>)
    ensures
        ivf_bench_kind(name) == Kind::Text ==> {
            ||| name == "--index"@
            ||| name == "--queries"@
            ||| name == "--gt"@
            ||| name == "--s3-endpoint"@
            ||| name == "--s3-bucket"@
            ||| name == "--s3-access-key"@
            ||| name == "--s3-secret-key"@
        },
        ivf_bench_kind(name) == Kind::Size ==> {
            ||| name == "--topk"@
        },
        ivf_bench_kind(name) == Kind::Flag ==> {
            ||| name == "--v4"@
        },
        ivf_bench_kind(name) == Kind::Store ==> {
            ||| name == "--store"@
        },
        ivf_bench_kind(name) != Kind::Seed,
        ivf_bench_kind(name) != Kind::Float,
        ivf_bench_kind(name) != Kind::Format,
        ivf_bench_kind(name) == Kind::Unknown <==> {
            &&& name != "--index"@
            &&& name != "--queries"@
            &&& name != "--gt"@
            &&& name != "--topk"@
            &&& name != "--v4"@
            &&& name != "--store"@
            &&& name != "--s3-endpoint"@
            &&& name != "--s3-bucket"@
            &&& name != "--s3-access-key"@
            &&& name != "--s3-secret-key"@
        },
{
}

/// The options of the MSTG benchmark, and what each of them takes.
pub proof fn law_mstg_bench_options(name: Seq<char>)
    ensures
        mstg_bench_kind(name) == Kind::Text ==> {
            ||| name == "--base"@
            ||| name == "--queries"@
            ||| name == "--gt"@
            ||| name == "--save"@
            ||| name == "--load"@
            ||| name == "--centroid-precision"@
        },
        mstg_bench_kind(name) == Kind::Size ==> {
            ||| name == "--bits"@
            ||| name == "--max-posting-size"@
            ||| name == "--max-replicas"@
            ||| name == "--topk"@
            ||| name == "--limit"@
        },
        mstg_bench_kind(name) == Kind::Float ==> {
            ||| name == "--closure-epsilon"@
        },
        mstg_bench_kind(name) == Kind::Seed ==> {
            ||| name == "--seed"@
        },
        mstg_bench_kind(name) != Kind::Flag,
        mstg_bench_kind(name) != Kind::Format,
        mstg_bench_kind(name) != Kind::Store,
        mstg_bench_kind(name) == Kind::Unknown <==> {
            &&& name != "--base"@
            &&& name != "--queries"@
            &&& name != "--gt"@
            &&& name != "--save"@
            &&& name != "--load"@
            &&& name != "--bits"@
            &&& name != "--max-posting-size"@
            &&& name != "--closure-epsilon"@
            &&& name != "--max-replicas"@
            &&& name != "--centroid-precision"@
            &&& name != "--topk"@
            &&& name != "--seed"@
            &&& name != "--limit"@
        },
{
}

/// What the index builder makes of its options: the text, the number or the choice of each, and
/// what holds
/// where it is not given.
pub proof fn law_builder_takes_options(given: Map<Seq<char>, Seq<char>>)
    ensures
        given.contains_key("--base"@) ==> args_of(given).base == Some(given["--base"@]),
        !given.contains_key("--base"@) ==> args_of(given).base is None,
        given.contains_key("--centroids"@)
            ==> args_of(given).centroids == Some(given["--centroids"@]),
        !given.contains_key("--centroids"@) ==> args_of(given).centroids is None,
        given.contains_key("--assignments"@)
            ==> args_of(given).assignments == Some(given["--assignments"@]),
        !given.contains_key("--assignments"@) ==> args_of(given).assignments is None,
        given.contains_key("--nlist"@) ==> (args_of(given).nlist matches Some(v) ==> number_of(
            given["--nlist"@],
            usize::MAX as int,
        ) == Some(v as int)),
        given.contains_key("--nlist"@) ==> (args_of(given).nlist is None ==> number_of(
            given["--nlist"@],
            usize::MAX as int,
        ) is None),
        !given.contains_key("--nlist"@) ==> args_of(given).nlist is None,
        given.contains_key("--bits"@) && number_of(given["--bits"@], usize::MAX as int) is Some
            ==> Some(args_of(given).bits as int) == number_of(
            given["--bits"@],
            usize::MAX as int,
        ),
        !given.contains_key("--bits"@) ==> args_of(given).bits == 7,
        given.contains_key("--save"@) ==> args_of(given).save == Some(given["--save"@]),
        !given.contains_key("--save"@) ==> args_of(given).save is None,
        given.contains_key("--load"@) ==> args_of(given).load == Some(given["--load"@]),
        !given.contains_key("--load"@) ==> args_of(given).load is None,
        given.contains_key("--insert"@) ==> args_of(given).insert == Some(given["--insert"@]),
        !given.contains_key("--insert"@) ==> args_of(given).insert is None,
        args_of(given).format == SaveFormat::V4
            <==> given.contains_key("--format"@) && given["--format"@]
            == "v4"@,
        args_of(given).faster_config <==> given.contains_key("--faster-config"@),
        args_of(given).metric == Metric::InnerProduct <==> given.contains_key("--ip"@),
        given.contains_key("--seed"@) && number_of(given["--seed"@], u64::MAX as int) is Some
            ==> Some(args_of(given).seed as int) == number_of(
            given["--seed"@],
            u64::MAX as int,
        ),
        !given.contains_key("--seed"@) ==> args_of(given).seed == 42,
        given.contains_key("--limit"@) ==> (args_of(given).limit matches Some(v) ==> number_of(
            given["--limit"@],
            usize::MAX as int,
        ) == Some(v as int)),
        given.contains_key("--limit"@) ==> (args_of(given).limit is None ==> number_of(
            given["--limit"@],
            usize::MAX as int,
        ) is None),
        !given.contains_key("--limit"@) ==> args_of(given).limit is None,
        args_of(given).stream <==> given.contains_key("--stream"@),
        given.contains_key("--stream-batch-size"@)
            && number_of(given["--stream-batch-size"@], usize::MAX as int) is Some
            ==> Some(args_of(given).stream_batch_size as int) == number_of(
            given["--stream-batch-size"@],
            usize::MAX as int,
        ),
        !given.contains_key("--stream-batch-size"@) ==> args_of(given).stream_batch_size == 100000,
        args_of(given).store_type == StoreType::S3
            <==> given.contains_key("--store"@) && given["--store"@]
            == "s3"@,
        given.contains_key("--s3-endpoint"@)
            ==> args_of(given).s3_endpoint == given["--s3-endpoint"@],
        !given.contains_key("--s3-endpoint"@)
            ==> args_of(given).s3_endpoint == "http://localhost:9000"@,
        given.contains_key("--s3-bucket"@) ==> args_of(given).s3_bucket == given["--s3-bucket"@],
        !given.contains_key("--s3-bucket"@) ==> args_of(given).s3_bucket == ""@,
        given.contains_key("--s3-access-key"@)
            ==> args_of(given).s3_access_key == given["--s3-access-key"@],
        !given.contains_key("--s3-access-key"@) ==> args_of(given).s3_access_key == "minioadmin1"@,
        given.contains_key("--s3-secret-key"@)
            ==> args_of(given).s3_secret_key == given["--s3-secret-key"@],
        !given.contains_key("--s3-secret-key"@) ==> args_of(given).s3_secret_key == "minioadmin1"@,
        args_of(given).s3_allow_http,
{
    lemma_numbers_fit(given);
}

/// What the IVF benchmark makes of its options: the text, the number or the choice of each, and
/// what holds
/// where it is not given.
pub proof fn law_ivf_bench_takes_options(given: Map<Seq<char>, Seq<char>>)
    ensures
        given.contains_key("--index"@) ==> bench_args_of(given).index == given["--index"@],
        !given.contains_key("--index"@) ==> bench_args_of(given).index == Seq::<char>::empty(),
        given.contains_key("--queries"@) ==> bench_args_of(given).queries == given["--queries"@],
        !given.contains_key("--queries"@) ==> bench_args_of(given).queries == Seq::<char>::empty(),
        given.contains_key("--gt"@) ==> bench_args_of(given).gt == given["--gt"@],
        !given.contains_key("--gt"@) ==> bench_args_of(given).gt == Seq::<char>::empty(),
        given.contains_key("--topk"@) && number_of(given["--topk"@], usize::MAX as int) is Some
            ==> Some(bench_args_of(given).topk as int) == number_of(
            given["--topk"@],
            usize::MAX as int,
        ),
        !given.contains_key("--topk"@) ==> bench_args_of(given).topk == 100,
        bench_args_of(given).v4 <==> given.contains_key("--v4"@),
        bench_args_of(given).store_type == StoreType::S3
            <==> given.contains_key("--store"@) && given["--store"@]
            == "s3"@,
        given.contains_key("--s3-endpoint"@)
            ==> bench_args_of(given).s3_endpoint == given["--s3-endpoint"@],
        !given.contains_key("--s3-endpoint"@)
            ==> bench_args_of(given).s3_endpoint == "http://localhost:9000"@,
        given.contains_key("--s3-bucket"@)
            ==> bench_args_of(given).s3_bucket == given["--s3-bucket"@],
        !given.contains_key("--s3-bucket"@) ==> bench_args_of(given).s3_bucket == ""@,
        given.contains_key("--s3-access-key"@)
            ==> bench_args_of(given).s3_access_key == given["--s3-access-key"@],
        !given.contains_key("--s3-access-key"@)
            ==> bench_args_of(given).s3_access_key == "minioadmin1"@,
        given.contains_key("--s3-secret-key"@)
            ==> bench_args_of(given).s3_secret_key == given["--s3-secret-key"@],
        !given.contains_key("--s3-secret-key"@)
            ==> bench_args_of(given).s3_secret_key == "minioadmin1"@,
{
    lemma_numbers_fit(given);
}

/// What the MSTG benchmark makes of its options: the text, the number or the choice of each, and
/// what holds
/// where it is not given.
pub proof fn law_mstg_bench_takes_options(given: Map<Seq<char>, Seq<char>>)
    ensures
        given.contains_key("--base"@) ==> mstg_args_of(given).base == Some(given["--base"@]),
        !given.contains_key("--base"@) ==> mstg_args_of(given).base is None,
        given.contains_key("--queries"@) ==> mstg_args_of(given).queries == Some(given["--queries"@]),
        !given.contains_key("--queries"@) ==> mstg_args_of(given).queries is None,
        given.contains_key("--gt"@) ==> mstg_args_of(given).gt == Some(given["--gt"@]),
        !given.contains_key("--gt"@) ==> mstg_args_of(given).gt is None,
        given.contains_key("--save"@) ==> mstg_args_of(given).save == given["--save"@],
        !given.contains_key("--save"@) ==> mstg_args_of(given).save == "data/gist/mstg_7bit"@,
        given.contains_key("--load"@) ==> mstg_args_of(given).load == Some(given["--load"@]),
        !given.contains_key("--load"@) ==> mstg_args_of(given).load is None,
        given.contains_key("--bits"@) && number_of(given["--bits"@], usize::MAX as int) is Some
            ==> Some(mstg_args_of(given).bits as int) == number_of(
            given["--bits"@],
            usize::MAX as int,
        ),
        !given.contains_key("--bits"@) ==> mstg_args_of(given).bits == 7,
        given.contains_key("--max-posting-size"@)
            && number_of(given["--max-posting-size"@], usize::MAX as int) is Some
            ==> Some(mstg_args_of(given).max_posting_size as int) == number_of(
            given["--max-posting-size"@],
            usize::MAX as int,
        ),
        !given.contains_key("--max-posting-size"@) ==> mstg_args_of(given).max_posting_size == 5000,
        given.contains_key("--closure-epsilon"@)
            ==> mstg_args_of(given).closure_epsilon == given["--closure-epsilon"@],
        !given.contains_key("--closure-epsilon"@) ==> mstg_args_of(given).closure_epsilon == "0.02"@,
        given.contains_key("--max-replicas"@)
            && number_of(given["--max-replicas"@], usize::MAX as int) is Some
            ==> Some(mstg_args_of(given).max_replicas as int) == number_of(
            given["--max-replicas"@],
            usize::MAX as int,
        ),
        !given.contains_key("--max-replicas"@) ==> mstg_args_of(given).max_replicas == 8,
        given.contains_key("--centroid-precision"@)
            ==> mstg_args_of(given).centroid_precision == given["--centroid-precision"@],
        !given.contains_key("--centroid-precision"@)
            ==> mstg_args_of(given).centroid_precision == "bf16"@,
        given.contains_key("--topk"@) && number_of(given["--topk"@], usize::MAX as int) is Some
            ==> Some(mstg_args_of(given).topk as int) == number_of(
            given["--topk"@],
            usize::MAX as int,
        ),
        !given.contains_key("--topk"@) ==> mstg_args_of(given).topk == 100,
        given.contains_key("--seed"@) && number_of(given["--seed"@], u64::MAX as int) is Some
            ==> Some(mstg_args_of(given).seed as int) == number_of(
            given["--seed"@],
            u64::MAX as int,
        ),
        !given.contains_key("--seed"@) ==> mstg_args_of(given).seed == 42,
        given.contains_key("--limit"@) ==> (mstg_args_of(given).limit matches Some(v) ==> number_of(
            given["--limit"@],
            usize::MAX as int,
        ) == Some(v as int)),
        given.contains_key("--limit"@) ==> (mstg_args_of(given).limit is None ==> number_of(
            given["--limit"@],
            usize::MAX as int,
        ) is None),
        !given.contains_key("--limit"@) ==> mstg_args_of(given).limit is None,
{
    lemma_numbers_fit(given);
}

proof fn lemma_numbers_fit(given: Map<Seq<char>, Seq<char>>)
    ensures
        forall|name: Seq<char>| #[trigger]
            given.contains_key(name) ==> (number_of(given[name], usize::MAX as int) matches Some(n)
                ==> 0 <= n <= usize::MAX) && (number_of(given[name], u64::MAX as int) matches Some(
                n,
            ) ==> 0 <= n <= u64::MAX),
{
    assert forall|name: Seq<char>| #[trigger] given.contains_key(name) implies (number_of(
        given[name],
        usize::MAX as int,
    ) matches Some(n)
        ==> 0 <= n <= usize::MAX) && (number_of(given[name], u64::MAX as int) matches Some(
        n,
    ) ==> 0 <= n <= u64::MAX) by {
        crate::figure_laws::law_what_reads_as_number(given[name], usize::MAX as int);
        crate::figure_laws::law_what_reads_as_number(given[name], u64::MAX as int);
    }
}

/// What the index builder needs: vectors and a place to save to unless it loads an index, and a
/// bucket
/// where the store is S3.
pub proof fn law_builder_needs(m: ArgsModel)
    ensures
        args_lack(m) is None <==> (m.load is Some || (m.base is Some && m.save is Some)) && (
        m.store_type == StoreType::Fs || m.s3_bucket.len() > 0),
{
}

/// What the IVF benchmark needs: an index, queries and their ground truth.
pub proof fn law_ivf_bench_needs(given: Map<Seq<char>, Seq<char>>)
    ensures
        bench_args_lack(given) is None <==> given.contains_key("--index"@) && given.contains_key(
            "--queries"@,
        ) && given.contains_key("--gt"@),
{
}

/// Which values an option takes: numbers up to the largest that fits, what the caller says is a
/// floating-point number, one of two words, or any text.
pub proof fn law_values_of_options(kind: Kind, value: Seq<char>, float_like: bool)
    ensures
        kind == Kind::Text || kind == Kind::Flag ==> value_fault(kind, value, float_like) is None,
        kind == Kind::Size ==> (value_fault(kind, value, float_like) is None <==> number_of(
            value,
            usize::MAX as int,
        ) is Some),
        kind == Kind::Seed ==> (value_fault(kind, value, float_like) is None <==> number_of(
            value,
            u64::MAX as int,
        ) is Some),
        kind == Kind::Float ==> (value_fault(kind, value, float_like) is None <==> float_like),
        kind == Kind::Format ==> (value_fault(kind, value, float_like) is None <==> value == "v3"@
            || value == "v4"@),
        kind == Kind::Store ==> (value_fault(kind, value, float_like) is None <==> value == "fs"@
            || value == "s3"@),
{
}

/// Every number that fits can be given: its numeral is taken, and read as that number.
pub proof fn law_numbers_can_be_given(
    given: Map<Seq<char>, Seq<char>>,
    name: Seq<char>,
    n: usize,
    seed: u64,
    float_like: bool,
    default: usize,
    other: u64,
)
    ensures
        value_fault(Kind::Size, decimal(n as int), float_like) is None,
        size_of(given.insert(name, decimal(n as int)), name) == Some(n),
        size_or(given.insert(name, decimal(n as int)), name, default) == n,
        value_fault(Kind::Seed, decimal(seed as int), float_like) is None,
        seed_or(given.insert(name, decimal(seed as int)), name, other) == seed,
{
    law_number_of_decimal(n as int, usize::MAX as int);
    law_number_of_decimal(seed as int, u64::MAX as int);
}

/// One more argument behind a command line: a flag is added, an unknown argument is refused, and any
/// other option lacks its value.
pub proof fn law_one_more_argument(
    program: Program,
    args: Seq<Seq<char>>,
    float_like: Seq<bool>,
    i: int,
    given: Map<Seq<char>, Seq<char>>,
    name: Seq<char>,
    f: bool,
)
    requires
        0 <= i <= args.len(),
        float_like.len() == args.len(),
        options_of(program, args, float_like, i, given) is Ok,
    ensures
        options_of(program, args.push(name), float_like.push(f), i, given) == match kind_in(
            program,
            name,
        ) {
            Kind::Unknown => Err::<Map<Seq<char>, Seq<char>>, ArgsFault>(
                ArgsFault::UnknownArgument(name),
            ),
            Kind::Flag => Ok(
                options_of(program, args, float_like, i, given)->Ok_0.insert(name, Seq::empty()),
            ),
            _ => Err(ArgsFault::MissingValue(name)),
        },
    decreases args.len() - i,
{
    let more = args.push(name);
    let likes = float_like.push(f);
    reveal_with_fuel(options_of, 3);
    if i < args.len() {
        let kind = kind_in(program, args[i]);
        assert(more[i] == args[i]);
        if kind == Kind::Flag {
            law_one_more_argument(
                program,
                args,
                float_like,
                i + 1,
                given.insert(args[i], Seq::empty()),
                name,
                f,
            );
        } else {
            assert(more[i + 1] == args[i + 1]);
            assert(likes[i + 1] == float_like[i + 1]);
            law_one_more_argument(
                program,
                args,
                float_like,
                i + 2,
                given.insert(args[i], args[i + 1]),
                name,
                f,
            );
        }
    }
}

/// One more option with its value behind a command line: where the value will do, it counts in
/// place of
/// any given before.
pub proof fn law_one_more_option(
    program: Program,
    args: Seq<Seq<char>>,
    float_like: Seq<bool>,
    i: int,
    given: Map<Seq<char>, Seq<char>>,
    name: Seq<char>,
    value: Seq<char>,
    f: bool,
    g: bool,
)
    requires
        0 <= i <= args.len(),
        float_like.len() == args.len(),
        options_of(program, args, float_like, i, given) is Ok,
        kind_in(program, name) != Kind::Unknown,
        kind_in(program, name) != Kind::Flag,
    ensures
        options_of(program, args + seq![name, value], float_like + seq![f, g], i, given)
            == match value_fault(kind_in(program, name), value, g) {
            Some(fault) => Err::<Map<Seq<char>, Seq<char>>, ArgsFault>(fault),
            None => Ok(options_of(program, args, float_like, i, given)->Ok_0.insert(name, value)),
        },
    decreases args.len() - i,
{
    let more = args + seq![name, value];
    let likes = float_like + seq![f, g];
    reveal_with_fuel(options_of, 3);
    if i < args.len() {
        let kind = kind_in(program, args[i]);
        assert(more[i] == args[i]);
        if kind == Kind::Flag {
            law_one_more_option(
                program,
                args,
                float_like,
                i + 1,
                given.insert(args[i], Seq::empty()),
                name,
                value,
                f,
                g,
            );
        } else {
            assert(more[i + 1] == args[i + 1]);
            assert(likes[i + 1] == float_like[i + 1]);
            law_one_more_option(
                program,
                args,
                float_like,
                i + 2,
                given.insert(args[i], args[i + 1]),
                name,
                value,
                f,
                g,
            );
        }
    } else {
        assert(more[i] == name && more[i + 1] == value && likes[i + 1] == g);
    }
}

/// Each program reads its own options, and a command line without arguments gives none.
pub proof fn law_programs_have_their_options(name: Seq<char>, program: Program, first: Seq<char>)
    ensures
        kind_in(Program::Build, name) == build_kind(name),
        kind_in(Program::IvfBench, name) == ivf_bench_kind(name),
        kind_in(Program::MstgBench, name) == mstg_bench_kind(name),
        options_of(program, seq![first], seq![false], 1, Map::empty()) == Ok::<
            Map<Seq<char>, Seq<char>>,
            ArgsFault,
        >(Map::empty()),
{
}

} // verus!
