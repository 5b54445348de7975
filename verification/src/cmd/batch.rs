//! `build`: the build variants of the packages, gathered into batches that
//! share an environment.

use crate::text::{join, joined, lemma_deep_view_is_texts, lemma_texts_concat, same_text, texts};
use crate::types::{BuildConfig, Context, Crate};
use vstd::prelude::*;
use vstd::string::*;

verus! {

/// The arguments of the command.
#[derive(Debug)]
pub struct Args {
    /// Build this package only; all packages where `None`.
    pub crate_name: Option<String>,
    /// Build the variants of this group; those without a group where `None`.
    pub group: Option<String>,
}

/// What the variants of one batch have in common.
#[derive(Debug)]
pub struct BuildConfigBatch {
    pub env: Vec<(String, String)>,
    pub build_std: Vec<String>,
}

/// One call of `cargo batch`.
#[derive(Debug)]
pub struct Batch {
    pub config: BuildConfigBatch,
    /// The arguments of the call.
    pub args: Vec<String>,
}

/// Why the command fails.
#[derive(Debug)]
pub enum BuildError {
    /// The package that was asked for is not in the catalog.
    NotFound(String),
}

/// The text of an optional text.
pub open spec fn opt_text(o: Option<String>) -> Option<Seq<char>> {
    match o {
        Some(s) => Some(s@),
        None => None,
    }
}

/// The names and values of an environment, as they are listed.
pub open spec fn env_model(env: Seq<(String, String)>) -> Seq<(Seq<char>, Seq<char>)> {
    Seq::new(env.len(), |i: int| (env[i].0@, env[i].1@))
}

/// The value that the listed environment gives the variable `name`: that of
/// the last entry for it, as a later setting overrides an earlier one.
pub open spec fn env_value(pairs: Seq<(Seq<char>, Seq<char>)>, name: Seq<char>) -> Option<Seq<char>>
    decreases pairs.len(),
{
    if pairs.len() == 0 {
        None
    } else if pairs.last().0 == name {
        Some(pairs.last().1)
    } else {
        env_value(pairs.drop_last(), name)
    }
}

/// The environment that a list of settings stands for: the variables that
/// it sets, each with its value. The order of the list does not count.
pub open spec fn env_map(pairs: Seq<(Seq<char>, Seq<char>)>) -> Map<Seq<char>, Seq<char>> {
    Map::new(|name: Seq<char>| env_value(pairs, name) is Some, |name: Seq<char>| env_value(pairs, name)->0)
}

/// A variable has a value where the list has an entry for it.
pub proof fn lemma_env_value(pairs: Seq<(Seq<char>, Seq<char>)>, name: Seq<char>)
    ensures
        env_value(pairs, name) is Some <==> exists|i: int| 0 <= i < pairs.len() && (#[trigger] pairs[i]).0 == name,
    decreases pairs.len(),
{
    if pairs.len() > 0 {
        let rest = pairs.drop_last();
        lemma_env_value(rest, name);
        if exists|i: int| 0 <= i < rest.len() && (#[trigger] rest[i]).0 == name {
            let i = choose|i: int| 0 <= i < rest.len() && (#[trigger] rest[i]).0 == name;
            assert(pairs[i].0 == name);
        }
        if exists|i: int| 0 <= i < pairs.len() && (#[trigger] pairs[i]).0 == name {
            let i = choose|i: int| 0 <= i < pairs.len() && (#[trigger] pairs[i]).0 == name;
            if i < rest.len() {
                assert(rest[i].0 == name);
            }
        }
    }
}

/// The mathematical value of a `BuildConfigBatch`.
pub struct KeyModel {
    pub env: Map<Seq<char>, Seq<char>>,
    pub build_std: Seq<Seq<char>>,
}

/// The mathematical value of a `Batch`.
pub struct BatchModel {
    pub key: KeyModel,
    pub args: Seq<Seq<char>>,
}

/// What a build variant shares with the others of its batch.
pub open spec fn key_of(config: BuildConfig) -> KeyModel {
    KeyModel { env: env_map(env_model(config.env@)), build_std: config.build_std.deep_view() }
}

impl View for Batch {
    type V = BatchModel;

    open spec fn view(&self) -> BatchModel {
        BatchModel {
            key: KeyModel {
                env: env_map(env_model(self.config.env@)),
                build_std: self.config.build_std.deep_view(),
            },
            args: self.args.deep_view(),
        }
    }
}

/// The values of `batches`, in order.
pub open spec fn batch_models(batches: Seq<Batch>) -> Seq<BatchModel> {
    Seq::new(batches.len(), |i: int| batches[i]@)
}

/// The arguments that a batch starts with.
pub open spec fn batch_head(key: KeyModel) -> Seq<Seq<char>> {
    seq!["batch"@] + if key.build_std.len() > 0 {
        seq!["-Zbuild-std="@ + joined(key.build_std, ","@)]
    } else {
        Seq::empty()
    }
}

/// The arguments that build the package in `manifest_dir` in the variant
/// `config`, after the separator that sets builds apart in a batch.
pub open spec fn job_arguments(manifest_dir: Seq<char>, config: BuildConfig) -> Seq<Seq<char>> {
    seq!["---"@, "build"@, "--release"@, "--manifest-path="@ + manifest_dir + "/Cargo.toml"@] + (match config.target {
        Some(t) => seq!["--target="@ + t@],
        None => Seq::empty(),
    }) + (if config.features@.len() > 0 {
        seq!["--features="@ + joined(config.features.deep_view(), ","@)]
    } else {
        Seq::empty()
    }) + (match config.artifact_dir {
        Some(d) => seq!["--artifact-dir="@ + d@],
        None => Seq::empty(),
    })
}

/// The first position from `i` on at which `batches` has a batch for `key`,
/// or the length of `batches` where there is none.
pub open spec fn key_index(batches: Seq<BatchModel>, key: KeyModel, i: int) -> int
    decreases batches.len() - i,
{
    if i < 0 || i >= batches.len() {
        batches.len() as int
    } else if batches[i].key == key {
        i
    } else {
        key_index(batches, key, i + 1)
    }
}

/// `batches` with one more build: in the batch for `key` if there is one, in
/// a new batch at the end otherwise.
pub open spec fn add_job(batches: Seq<BatchModel>, key: KeyModel, job: Seq<Seq<char>>) -> Seq<BatchModel> {
    let i = key_index(batches, key, 0);
    if i < batches.len() {
        batches.update(i, BatchModel { key, args: batches[i].args + job })
    } else {
        batches.push(BatchModel { key, args: batch_head(key) + job })
    }
}

/// `batches` with the first `k` variants of the package `c` that belong to
/// the group `group`.
pub open spec fn crate_batches(batches: Seq<BatchModel>, c: Crate, group: Option<Seq<char>>, k: int) -> Seq<
    BatchModel,
>
    decreases k,
{
    if k <= 0 {
        batches
    } else {
        let before = crate_batches(batches, c, group, k - 1);
        let config = c.configs@[k - 1];
        if opt_text(config.group) == group {
            add_job(before, key_of(config), job_arguments(c.path@, config))
        } else {
            before
        }
    }
}

/// The batches for the variants of the first `n` packages that belong to
/// the group `group`.
pub open spec fn all_batches(packages: Seq<Crate>, group: Option<Seq<char>>, n: int) -> Seq<BatchModel>
    decreases n,
{
    if n <= 0 {
        Seq::empty()
    } else {
        crate_batches(
            all_batches(packages, group, n - 1),
            packages[n - 1],
            group,
            packages[n - 1].configs@.len() as int,
        )
    }
}

fn same_option(a: &Option<String>, b: &Option<String>) -> (r: bool)
    ensures
        r == (opt_text(*a) == opt_text(*b)),
{
    match a {
        Some(x) => match b {
            Some(y) => same_text(x.as_str(), y.as_str()),
            None => false,
        },
        None => match b {
            Some(_) => false,
            None => true,
        },
    }
}

fn same_texts(a: &Vec<String>, b: &Vec<String>) -> (r: bool)
    ensures
        r == (a.deep_view() == b.deep_view()),
{
    if a.len() != b.len() {
        assert(a.deep_view().len() != b.deep_view().len());
        return false;
    }
    let mut i: usize = 0;
    while i < a.len()
        invariant
            i <= a.len(),
            a.len() == b.len(),
            forall|k: int| 0 <= k < i ==> a[k]@ == b[k]@,
        decreases a.len() - i,
    {
        if !same_text(a[i].as_str(), b[i].as_str()) {
            assert(a.deep_view()[i as int] != b.deep_view()[i as int]);
            return false;
        }
        i += 1;
    }
    assert(a.deep_view() =~= b.deep_view());
    true
}

/// The place of the last entry of `env` for the variable `name`.
fn setting_of(env: &Vec<(String, String)>, name: &str) -> (r: Option<usize>)
    ensures
        match r {
            Some(i) => i < env.len() && env[i as int].0@ == name@ && env_value(env_model(env@), name@) == Some(
                env[i as int].1@,
            ),
            None => env_value(env_model(env@), name@) is None,
        },
{
    let ghost pairs = env_model(env@);
    let mut i: usize = env.len();
    assert(pairs.take(i as int) =~= pairs);
    while i > 0
        invariant
            i <= env.len(),
            pairs == env_model(env@),
            env_value(pairs, name@) == env_value(pairs.take(i as int), name@),
        decreases i,
    {
        let ghost part = pairs.take(i as int);
        assert(part.last() == pairs[i - 1]);
        assert(part.drop_last() =~= pairs.take(i - 1));
        if same_text(env[i - 1].0.as_str(), name) {
            return Some(i - 1);
        }
        i -= 1;
    }
    None
}

/// Whether two lists of settings stand for the same environment.
fn same_env(a: &Vec<(String, String)>, b: &Vec<(String, String)>) -> (r: bool)
    ensures
        r == (env_map(env_model(a@)) == env_map(env_model(b@))),
{
    let ghost left = env_model(a@);
    let ghost right = env_model(b@);
    let mut i: usize = 0;
    while i < a.len()
        invariant
            i <= a.len(),
            left == env_model(a@),
            right == env_model(b@),
            forall|k: int| 0 <= k < i ==> env_value(right, (#[trigger] left[k]).0) == env_value(left, left[k].0),
        decreases a.len() - i,
    {
        let ghost name = left[i as int].0;
        assert(name == a[i as int].0@);
        proof {
            lemma_env_value(left, name);
        }
        let same = match setting_of(a, a[i].0.as_str()) {
            Some(x) => match setting_of(b, a[i].0.as_str()) {
                Some(y) => same_text(a[x].1.as_str(), b[y].1.as_str()),
                None => false,
            },
            None => false,
        };
        if !same {
            proof {
                assert(env_value(left, name) is Some);
                assert(env_value(right, name) != env_value(left, name));
                assert(env_map(left).dom().contains(name));
                if env_map(left) == env_map(right) {
                    assert(env_map(right).dom().contains(name));
                    assert(env_map(right)[name] == env_map(left)[name]);
                }
            }
            return false;
        }
        i += 1;
    }
    let mut j: usize = 0;
    while j < b.len()
        invariant
            j <= b.len(),
            left == env_model(a@),
            right == env_model(b@),
            forall|k: int| 0 <= k < a.len() ==> env_value(right, (#[trigger] left[k]).0) == env_value(left, left[k].0),
            forall|k: int| 0 <= k < j ==> env_value(left, (#[trigger] right[k]).0) is Some,
        decreases b.len() - j,
    {
        let ghost name = right[j as int].0;
        assert(name == b[j as int].0@);
        match setting_of(a, b[j].0.as_str()) {
            Some(_) => {},
            None => {
                proof {
                    lemma_env_value(right, name);
                    assert(env_map(right).dom().contains(name));
                    assert(!env_map(left).dom().contains(name));
                }
                return false;
            },
        }
        j += 1;
    }
    proof {
        assert forall|name: Seq<char>| env_value(left, name) == env_value(right, name) by {
            lemma_env_value(left, name);
            lemma_env_value(right, name);
            if env_value(left, name) is Some {
                let k = choose|k: int| 0 <= k < left.len() && (#[trigger] left[k]).0 == name;
                assert(env_value(right, left[k].0) == env_value(left, left[k].0));
            } else if env_value(right, name) is Some {
                let k = choose|k: int| 0 <= k < right.len() && (#[trigger] right[k]).0 == name;
                assert(env_value(left, right[k].0) is Some);
            }
        }
        assert(env_map(left) =~= env_map(right));
    }
    true
}

fn copy_env(env: &Vec<(String, String)>) -> (r: Vec<(String, String)>)
    ensures
        env_model(r@) == env_model(env@),
{
    let mut r: Vec<(String, String)> = Vec::new();
    let mut i: usize = 0;
    while i < env.len()
        invariant
            i <= env.len(),
            r.len() == i,
            forall|k: int| 0 <= k < i ==> env_model(r@)[k] == env_model(env@)[k],
        decreases env.len() - i,
    {
        r.push((env[i].0.clone(), env[i].1.clone()));
        i += 1;
    }
    assert(env_model(r@) =~= env_model(env@));
    r
}

/// The arguments that build the package in `manifest_dir` in the variant `config`.
pub fn job_args(manifest_dir: &str, config: &BuildConfig) -> (args: Vec<String>)
    ensures
        args.deep_view() == job_arguments(manifest_dir@, *config),
{
    let mut args: Vec<String> = Vec::new();
    args.push(String::from_str("---"));
    args.push(String::from_str("build"));
    args.push(String::from_str("--release"));
    let mut manifest = String::from_str("--manifest-path=");
    manifest.append(manifest_dir);
    manifest.append("/Cargo.toml");
    args.push(manifest);
    let ghost a = args.deep_view();
    assert(a =~= seq!["---"@, "build"@, "--release"@, "--manifest-path="@ + manifest_dir@ + "/Cargo.toml"@]);
    match &config.target {
        Some(t) => {
            let mut arg = String::from_str("--target=");
            arg.append(t.as_str());
            args.push(arg);
            assert(args.deep_view() =~= a + seq!["--target="@ + t@]);
        },
        None => {
            assert(args.deep_view() =~= a + Seq::<Seq<char>>::empty());
        },
    }
    let ghost b = args.deep_view();
    if config.features.len() > 0 {
        let mut arg = String::from_str("--features=");
        let list = join(&config.features, ",");
        arg.append(list.as_str());
        args.push(arg);
        assert(args.deep_view() =~= b + seq!["--features="@ + joined(config.features.deep_view(), ","@)]);
    } else {
        assert(args.deep_view() =~= b + Seq::<Seq<char>>::empty());
    }
    let ghost c = args.deep_view();
    match &config.artifact_dir {
        Some(d) => {
            let mut arg = String::from_str("--artifact-dir=");
            arg.append(d.as_str());
            args.push(arg);
            assert(args.deep_view() =~= c + seq!["--artifact-dir="@ + d@]);
        },
        None => {
            assert(args.deep_view() =~= c + Seq::<Seq<char>>::empty());
        },
    }
    args
}

/// Puts the build of the package in `manifest_dir` in the variant `config`
/// into the batch that it belongs to.
fn push_job(batches: &mut Vec<Batch>, manifest_dir: &str, config: &BuildConfig)
    ensures
        batch_models(final(batches)@) == add_job(
            batch_models(old(batches)@),
            key_of(*config),
            job_arguments(manifest_dir@, *config),
        ),
{
    let ghost before = batch_models(batches@);
    let ghost key = key_of(*config);
    let mut job = job_args(manifest_dir, config);
    let ghost job_model = job.deep_view();
    let mut i: usize = 0;
    while i < batches.len()
        invariant
            i <= batches.len(),
            before == batch_models(batches@),
            before == batch_models(old(batches)@),
            key == key_of(*config),
            job.deep_view() == job_model,
            job_model == job_arguments(manifest_dir@, *config),
            key_index(before, key, 0) == key_index(before, key, i as int),
        decreases batches.len() - i,
    {
        if same_env(&batches[i].config.env, &config.env) && same_texts(&batches[i].config.build_std, &config.build_std) {
            assert(before[i as int].key == key);
            assert(key_index(before, key, i as int) == i);
            let ghost old_args = batches[i as int].args.deep_view();
            let ghost old_list = batches[i as int].args@;
            let ghost job_list = job@;
            let ghost prev = batches@;
            batches[i].args.append(&mut job);
            proof {
                assert(batches[i as int].args@ =~= old_list + job_list);
                lemma_texts_concat(old_list, job_list);
                lemma_deep_view_is_texts(batches[i as int].args);
                assert(texts(old_list) =~= old_args);
                assert(texts(job_list) =~= job_model);
                assert(batches[i as int].args.deep_view() =~= old_args + job_model);
                assert(batches@[i as int].config == prev[i as int].config);
                assert forall|k: int| 0 <= k < batches.len() && k != i implies batches@[k] == prev[k] by {}
                assert(batch_models(batches@) =~= before.update(
                    i as int,
                    BatchModel { key, args: before[i as int].args + job_model },
                ));
            }
            return ;
        }
        assert(before[i as int].key != key);
        i += 1;
    }
    let mut args: Vec<String> = Vec::new();
    args.push(String::from_str("batch"));
    if config.build_std.len() > 0 {
        let mut arg = String::from_str("-Zbuild-std=");
        let list = join(&config.build_std, ",");
        arg.append(list.as_str());
        args.push(arg);
        assert(args.deep_view() =~= batch_head(key));
    } else {
        assert(args.deep_view() =~= batch_head(key));
    }
    let ghost head = args.deep_view();
    let ghost head_list = args@;
    let ghost job_list = job@;
    args.append(&mut job);
    proof {
        assert(args@ =~= head_list + job_list);
        lemma_texts_concat(head_list, job_list);
        lemma_deep_view_is_texts(args);
        assert(texts(head_list) =~= head);
        assert(texts(job_list) =~= job_model);
        assert(args.deep_view() =~= head + job_model);
    }
    let batch = Batch {
        config: BuildConfigBatch { env: copy_env(&config.env), build_std: crate::text::copy_texts(&config.build_std) },
        args,
    };
    batches.push(batch);
    assert(batch_models(batches@) =~= before.push(BatchModel { key, args: batch_head(key) + job_model }));
}

/// Puts the variants of the package `c` that belong to `group` into their batches.
fn push_crate(batches: &mut Vec<Batch>, c: &Crate, group: &Option<String>)
    ensures
        batch_models(final(batches)@) == crate_batches(
            batch_models(old(batches)@),
            *c,
            opt_text(*group),
            c.configs@.len() as int,
        ),
{
    let ghost start = batch_models(batches@);
    let mut k: usize = 0;
    while k < c.configs.len()
        invariant
            k <= c.configs.len(),
            batch_models(batches@) == crate_batches(start, *c, opt_text(*group), k as int),
        decreases c.configs.len() - k,
    {
        if same_option(&c.configs[k].group, group) {
            push_job(batches, c.path.as_str(), &c.configs[k]);
        }
        k += 1;
    }
}

/// The calls of `cargo batch` that build the package `crate_name`, or all
/// packages where none is named: the build variants of the group `group`,
/// packages and variants in their order, each batch holding the variants
/// with the same environment and the same `build_std`. The batches stand in
/// the order in which their first variant was met.
pub fn run(ctx: &Context, args: &Args) -> (r: Result<Vec<Batch>, BuildError>)
    ensures
        match r {
            Ok(batches) => batch_models(batches@) == match args.crate_name {
                Some(name) => crate_batches(
                    Seq::empty(),
                    ctx.package(name@),
                    opt_text(args.group),
                    ctx.package(name@).configs@.len() as int,
                ),
                None => all_batches(ctx.packages(), opt_text(args.group), ctx.size() as int),
            } && (args.crate_name matches Some(name) ==> ctx.knows(name@)),
            Err(BuildError::NotFound(missing)) => args.crate_name matches Some(name) && name@ == missing@
                && !ctx.knows(name@),
        },
{
    let crates = ctx.crates();
    let mut batches: Vec<Batch> = Vec::new();
    assert(batch_models(batches@) =~= Seq::<BatchModel>::empty());
    match &args.crate_name {
        Some(name) => {
            match ctx.find(name.as_str()) {
                None => {
                    return Err(BuildError::NotFound(name.clone()));
                },
                Some(p) => {
                    proof {
                        ctx.lemma_position(p as int);
                    }
                    push_crate(&mut batches, &crates[p], &args.group);
                },
            }
        },
        None => {
            let mut i: usize = 0;
            while i < crates.len()
                invariant
                    i <= crates.len(),
                    crates@ == ctx.packages(),
                    batch_models(batches@) == all_batches(crates@, opt_text(args.group), i as int),
                decreases crates.len() - i,
            {
                push_crate(&mut batches, &crates[i], &args.group);
                i += 1;
            }
        },
    }
    Ok(batches)
}

/// The compiler flags for a batch whose environment sets `configured`, where
/// the environment of the tool itself sets `existing`: both, the tool's
/// first; only the batch's where the tool's are missing or empty.
pub fn merge_rustflags(existing: Option<&str>, configured: &str) -> (flags: String)
    ensures
        flags@ == match existing {
            Some(e) => if e@.len() > 0 {
                e@ + " "@ + configured@
            } else {
                configured@
            },
            None => configured@,
        },
{
    match existing {
        Some(e) => {
            if e.unicode_len() > 0 {
                let mut flags = String::from_str(e);
                flags.append(" ");
                flags.append(configured);
                flags
            } else {
                String::from_str(configured)
            }
        },
        None => String::from_str(configured),
    }
}

} // verus!
