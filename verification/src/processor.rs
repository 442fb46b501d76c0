//! The file processor: walks a listing of the source tree, classifies each
//! file, names its fingerprinted copy, and builds the lookup table.
//!
//! The processor itself touches no file system. A caller walks the source
//! directory, reads each file's bytes, and hands the listing over as
//! [`Entry`] values; the processor answers with the directories to create,
//! the copies to perform, and the finished table. The caller then carries
//! those plans out.

use vstd::prelude::*;

use crate::hashing::hash_token;
use crate::hashing::sha256_hex_upper;
use crate::map::Files;
use crate::map::has_key;
use crate::media::guess_media_type;
use crate::media::guessed_media_type;
use crate::paths::ext_of;
use crate::paths::file_name;
use crate::paths::file_name_of;
use crate::paths::is_under;
use crate::paths::join_paths;
use crate::paths::parent;
use crate::paths::parent_of;
use crate::paths::spec_join;
use crate::paths::stem_of;
use crate::paths::strip_leading_slash;
use crate::paths::strip_source;
use crate::paths::str_eq;

verus! {

/// One entry of the walked source tree: its path as the walk yields it, a
/// directory flag, and for files the full contents.
#[derive(Debug, Clone)]
pub struct Entry {
    /// The entry's path, source root included, as the walk yields it.
    pub path: String,
    /// Whether the entry is a directory rather than a regular file.
    pub is_dir: bool,
    /// A file's bytes; empty for directories.
    pub contents: Vec<u8>,
}

/// Items to avoid hash calculation.
///
/// Useful when serving vendor static files which are interlinked, where
/// changing file names would mean changing how the vendor files pull their
/// dependencies.
#[derive(Debug, Clone)]
pub enum NoHashCategory {
    /// file extensions whose files are copied without a hash in the name
    FileExtentions(Vec<String>),
    /// paths, relative to the source root, copied without a hash in the name
    FilePaths(Vec<String>),
}

/// Why a run refused to go on.
#[derive(Debug, Clone)]
pub enum BusterError {
    /// an exclusion rule names a path that does not exist under the source
    PathNotFound(String),
    /// no media type could be resolved for the file, in strict mode
    UnresolvedMediaType(String),
    /// a file to be fingerprinted has no extension to rebuild its name from
    MissingExtension(String),
    /// two walked entries carry the same original path
    DuplicateKey(String),
}

/// The model of an error, over character sequences.
pub ghost enum ErrorModel {
    PathNotFound(Seq<char>),
    UnresolvedMediaType(Seq<char>),
    MissingExtension(Seq<char>),
    DuplicateKey(Seq<char>),
}

impl View for BusterError {
    type V = ErrorModel;

    open spec fn view(&self) -> ErrorModel {
        match self {
            BusterError::PathNotFound(p) => ErrorModel::PathNotFound(p@),
            BusterError::UnresolvedMediaType(p) => ErrorModel::UnresolvedMediaType(p@),
            BusterError::MissingExtension(p) => ErrorModel::MissingExtension(p@),
            BusterError::DuplicateKey(p) => ErrorModel::DuplicateKey(p@),
        }
    }
}

/// Configuration for setting up cache-busting.
#[derive(Debug, Clone)]
pub struct Buster {
    /// source directory to scan
    pub source: String,
    /// recognized media types, as lowercase `type/subtype` text; absent
    /// means every file qualifies
    pub mime_types: Option<Vec<String>>,
    /// directory the copies land in
    pub result: String,
    /// route prefix prepended to every recorded destination path
    pub prefix: Option<String>,
    /// whether files outside the media-type filter are copied through
    /// unchanged rather than skipped entirely
    pub copy: bool,
    /// whether the caller's walk follows symbolic links
    pub follow_links: bool,
    /// exclusion rules that force pass-through without hashing
    pub no_hash: Vec<NoHashCategory>,
}

/// One planned copy, source path to destination path.
#[derive(Debug, Clone)]
pub struct CopyOp {
    /// the file to copy
    pub source: String,
    /// where its bytes land
    pub destination: String,
}

/// Everything a full processing run plans: the directory skeleton, the
/// copies, and the lookup table.
pub struct ProcessOutput {
    /// the directories to create under the result root, in order
    pub dirs: Vec<String>,
    /// the file copies to perform
    pub copies: Vec<CopyOp>,
    /// the finished lookup table
    pub files: Files,
}

/// Whether one exclusion rule makes `path` a pass-through file.
pub open spec fn rule_excludes(source: Seq<char>, rule: NoHashCategory, path: Seq<char>) -> bool {
    match rule {
        NoHashCategory::FilePaths(ps) => exists|i: int|
            0 <= i < ps@.len() && spec_join(source, ps@[i]@) == path,
        NoHashCategory::FileExtentions(exts) => match ext_of(file_name_of(path)) {
            Some(e) => exists|i: int| 0 <= i < exts@.len() && exts@[i]@ == e,
            None => false,
        },
    }
}

/// Whether any exclusion rule makes `path` a pass-through file.
pub open spec fn excluded(source: Seq<char>, rules: Seq<NoHashCategory>, path: Seq<char>) -> bool {
    exists|i: int| 0 <= i < rules.len() && rule_excludes(source, #[trigger] rules[i], path)
}

/// Whether the guessed media type `m` is among the recognized types.
pub open spec fn matches_filter(types: Seq<String>, m: Seq<char>) -> bool {
    exists|i: int| 0 <= i < types.len() && #[trigger] types[i]@ == m
}

/// The fingerprinted file name `{stem}.{TOKEN}.{extension}`, or nothing for
/// a name without an extension.
pub open spec fn fingerprint_name(name: Seq<char>, contents: Seq<u8>) -> Option<Seq<char>> {
    match ext_of(name) {
        None => None,
        Some(e) => Some(
            stem_of(name) + seq!['.'] + sha256_hex_upper(contents) + seq!['.'] + e,
        ),
    }
}

/// The root the recorded destination paths hang from: the result directory,
/// or the prefix joined with the result directory (its leading slash
/// dropped) when a prefix is configured.
pub open spec fn dest_root(cfg: Buster) -> Seq<char> {
    match cfg.prefix {
        Some(p) => spec_join(p@, strip_leading_slash(cfg.result@)),
        None => cfg.result@,
    }
}

/// The destination path recorded in the table for a file at `path` whose
/// new name is `name`.
pub open spec fn recorded_destination(cfg: Buster, path: Seq<char>, name: Seq<char>) -> Seq<char> {
    spec_join(spec_join(dest_root(cfg), parent_of(strip_source(cfg.source@, path))), name)
}

/// The on-disk path the file's bytes are copied to; the route prefix plays
/// no part here.
pub open spec fn copy_destination(cfg: Buster, path: Seq<char>, name: Seq<char>) -> Seq<char> {
    spec_join(spec_join(cfg.result@, parent_of(strip_source(cfg.source@, path))), name)
}

/// What the processor does with one entry.
pub ghost enum ActionModel {
    /// the entry plays no part in the run
    Skip,
    /// the run aborts
    Fail(ErrorModel),
    /// the file is copied and recorded: its table key, the recorded
    /// destination, and the on-disk copy destination
    Record(Seq<char>, Seq<char>, Seq<char>),
}

/// Classification of one qualifying file: excluded files pass through under
/// their own name, the rest get the fingerprinted name; a file to be
/// fingerprinted without an extension is a fatal error in strict mode and is
/// skipped otherwise.
pub open spec fn classify(cfg: Buster, e: Entry, fingerprint: bool, strict: bool) -> ActionModel {
    let path = e.path@;
    let name = file_name_of(path);
    if !fingerprint || excluded(cfg.source@, cfg.no_hash@, path) {
        ActionModel::Record(
            path,
            recorded_destination(cfg, path, name),
            copy_destination(cfg, path, name),
        )
    } else {
        match fingerprint_name(name, e.contents@) {
            None => if strict {
                ActionModel::Fail(ErrorModel::MissingExtension(path))
            } else {
                ActionModel::Skip
            },
            Some(fname) => ActionModel::Record(
                path,
                recorded_destination(cfg, path, fname),
                copy_destination(cfg, path, fname),
            ),
        }
    }
}

/// What the processor does with one walked entry: directories are skipped;
/// a configured media-type filter gates files, with an unresolvable type
/// fatal in strict mode and skipped otherwise; a non-matching file is copied
/// through unchanged when `copy` is set and skipped entirely when it is not.
pub open spec fn entry_action(cfg: Buster, e: Entry, strict: bool) -> ActionModel {
    if e.is_dir {
        ActionModel::Skip
    } else {
        match cfg.mime_types {
            None => classify(cfg, e, true, strict),
            Some(types) => match guessed_media_type(e.path@) {
                None => if strict {
                    ActionModel::Fail(ErrorModel::UnresolvedMediaType(e.path@))
                } else {
                    ActionModel::Skip
                },
                Some(m) => if matches_filter(types@, m) {
                    classify(cfg, e, true, strict)
                } else if cfg.copy {
                    classify(cfg, e, false, strict)
                } else {
                    ActionModel::Skip
                },
            },
        }
    }
}

/// A run's outcome: the table entries and the planned copies, in walk
/// order.
pub ghost struct RunModel {
    pub table: Seq<(Seq<char>, Seq<char>)>,
    pub copies: Seq<(Seq<char>, Seq<char>)>,
}

/// The whole run, entry by entry: each recorded file adds its mapping and
/// its copy; a repeated original path is a fatal error.
pub open spec fn run_model(cfg: Buster, entries: Seq<Entry>, strict: bool) -> Result<
    RunModel,
    ErrorModel,
>
    decreases entries.len(),
{
    if entries.len() == 0 {
        Ok(RunModel { table: Seq::empty(), copies: Seq::empty() })
    } else {
        match run_model(cfg, entries.drop_last(), strict) {
            Err(e) => Err(e),
            Ok(m) => match entry_action(cfg, entries.last(), strict) {
                ActionModel::Skip => Ok(m),
                ActionModel::Fail(e) => Err(e),
                ActionModel::Record(key, recorded, copied) => if has_key(m.table, key) {
                    Err(ErrorModel::DuplicateKey(key))
                } else {
                    Ok(
                        RunModel {
                            table: m.table.push((key, recorded)),
                            copies: m.copies.push((key, copied)),
                        },
                    )
                },
            },
        }
    }
}

/// The directory skeleton a run prepares: the result root itself, then each
/// directory under the source mirrored below the result root, in walk
/// order.
pub open spec fn mirror_dirs(cfg: Buster, entries: Seq<Entry>) -> Seq<Seq<char>>
    decreases entries.len(),
{
    if entries.len() == 0 {
        seq![cfg.result@]
    } else {
        let front = mirror_dirs(cfg, entries.drop_last());
        let e = entries.last();
        if e.is_dir && e.path@ != cfg.source@ {
            front.push(spec_join(cfg.result@, strip_source(cfg.source@, e.path@)))
        } else {
            front
        }
    }
}

/// The set of directories below the result root after the output tree is
/// prepared: whatever stood there before is deleted first, so only the
/// mirrored skeleton remains.
pub open spec fn skeleton_after(
    existing: Set<Seq<char>>,
    cfg: Buster,
    entries: Seq<Entry>,
) -> Set<Seq<char>> {
    mirror_dirs(cfg, entries).to_set()
}

/// Whether some walked entry stands at `p`.
pub open spec fn path_exists(entries: Seq<Entry>, p: Seq<char>) -> bool {
    exists|i: int| 0 <= i < entries.len() && #[trigger] entries[i].path@ == p
}

/// The first member of `ps` that, joined under the source root, no walked
/// entry stands at.
pub open spec fn first_missing_in(
    ps: Seq<String>,
    source: Seq<char>,
    entries: Seq<Entry>,
) -> Option<Seq<char>>
    decreases ps.len(),
{
    if ps.len() == 0 {
        None
    } else if !path_exists(entries, spec_join(source, ps[0]@)) {
        Some(ps[0]@)
    } else {
        first_missing_in(ps.drop_first(), source, entries)
    }
}

/// The first path named by an exclusion-by-path rule that does not exist
/// under the source.
pub open spec fn first_missing(
    rules: Seq<NoHashCategory>,
    source: Seq<char>,
    entries: Seq<Entry>,
) -> Option<Seq<char>>
    decreases rules.len(),
{
    if rules.len() == 0 {
        None
    } else {
        let head = match rules[0] {
            NoHashCategory::FilePaths(ps) => first_missing_in(ps@, source, entries),
            NoHashCategory::FileExtentions(_) => None,
        };
        match head {
            Some(f) => Some(f),
            None => first_missing(rules.drop_first(), source, entries),
        }
    }
}

/// Whether every path one rule names exists under the source.
pub open spec fn rule_paths_exist(
    rule: NoHashCategory,
    source: Seq<char>,
    entries: Seq<Entry>,
) -> bool {
    match rule {
        NoHashCategory::FilePaths(ps) => forall|j: int|
            0 <= j < ps@.len() ==> path_exists(entries, spec_join(source, #[trigger] ps@[j]@)),
        NoHashCategory::FileExtentions(_) => true,
    }
}

/// Whether every path an exclusion rule names exists under the source.
pub open spec fn excluded_paths_exist(
    rules: Seq<NoHashCategory>,
    source: Seq<char>,
    entries: Seq<Entry>,
) -> bool {
    forall|i: int| 0 <= i < rules.len() ==> rule_paths_exist(#[trigger] rules[i], source, entries)
}

/// Whether the table (or copy plan) holds the pair `(k, v)`.
pub open spec fn table_has(table: Seq<(Seq<char>, Seq<char>)>, k: Seq<char>, v: Seq<char>) -> bool {
    exists|j: int| 0 <= j < table.len() && #[trigger] table[j] == (k, v)
}

/// Every entry that a successful run records is found in the finished table
/// and in the copy plan, under its key and with its computed destinations.
pub proof fn lemma_run_model_records(cfg: Buster, entries: Seq<Entry>, strict: bool, i: int)
    requires
        0 <= i < entries.len(),
    ensures
        run_model(cfg, entries, strict) matches Ok(m) ==> (entry_action(cfg, entries[i], strict)
            matches ActionModel::Record(key, recorded, copied) ==> table_has(m.table, key, recorded)
            && table_has(m.copies, key, copied)),
    decreases entries.len(),
{
    match run_model(cfg, entries, strict) {
        Err(_) => {},
        Ok(m) => {
            let front = entries.drop_last();
            match run_model(cfg, front, strict) {
                Err(_) => {},
                Ok(fm) => {
                    match entry_action(cfg, entries[i], strict) {
                        ActionModel::Skip => {},
                        ActionModel::Fail(_) => {},
                        ActionModel::Record(key, recorded, copied) => {
                            if i < entries.len() - 1 {
                                lemma_run_model_records(cfg, front, strict, i);
                                assert(front[i] == entries[i]);
                                let j1 = choose|j: int|
                                    0 <= j < fm.table.len() && #[trigger] fm.table[j] == (
                                    key,
                                    recorded,
                                    );
                                let j2 = choose|j: int|
                                    0 <= j < fm.copies.len() && #[trigger] fm.copies[j] == (
                                    key,
                                    copied,
                                    );
                                assert(m.table[j1] == (key, recorded));
                                assert(m.copies[j2] == (key, copied));
                            } else {
                                assert(entries.last() == entries[i]);
                                assert(m.table[m.table.len() - 1] == (key, recorded));
                                assert(m.copies[m.copies.len() - 1] == (key, copied));
                            }
                        },
                    }
                },
            }
        },
    }
}

/// Every file that the media-type filter admits, that no exclusion rule
/// covers, and whose name carries an extension is recorded, after a
/// successful run, under its original path, mapped to the destination whose
/// file name embeds the content token of exactly its bytes; and its copy to
/// the mirrored location under the result root is planned.
pub proof fn lemma_fingerprinted_file_recorded(
    cfg: Buster,
    entries: Seq<Entry>,
    strict: bool,
    i: int,
)
    requires
        0 <= i < entries.len(),
        !entries[i].is_dir,
        match cfg.mime_types {
            None => true,
            Some(types) => guessed_media_type(entries[i].path@) matches Some(m) && matches_filter(
                types@,
                m,
            ),
        },
        !excluded(cfg.source@, cfg.no_hash@, entries[i].path@),
        ext_of(file_name_of(entries[i].path@)) is Some,
    ensures
        run_model(cfg, entries, strict) matches Ok(m) ==> (fingerprint_name(
            file_name_of(entries[i].path@),
            entries[i].contents@,
        ) matches Some(nm) ==> table_has(
            m.table,
            entries[i].path@,
            recorded_destination(cfg, entries[i].path@, nm),
        ) && table_has(m.copies, entries[i].path@, copy_destination(cfg, entries[i].path@, nm))),
{
    lemma_run_model_records(cfg, entries, strict, i);
}

/// Every excluded file that the run takes in passes through under its own
/// name: the recorded destination's file name is `{stem}.{extension}`
/// unchanged, with no token between them.
pub proof fn lemma_passthrough_file_recorded(
    cfg: Buster,
    entries: Seq<Entry>,
    strict: bool,
    i: int,
)
    requires
        0 <= i < entries.len(),
        !entries[i].is_dir,
        match cfg.mime_types {
            None => true,
            Some(types) => guessed_media_type(entries[i].path@) matches Some(m) && matches_filter(
                types@,
                m,
            ),
        },
        excluded(cfg.source@, cfg.no_hash@, entries[i].path@),
    ensures
        run_model(cfg, entries, strict) matches Ok(m) ==> table_has(
            m.table,
            entries[i].path@,
            recorded_destination(cfg, entries[i].path@, file_name_of(entries[i].path@)),
        ) && table_has(
            m.copies,
            entries[i].path@,
            copy_destination(cfg, entries[i].path@, file_name_of(entries[i].path@)),
        ),
{
    lemma_run_model_records(cfg, entries, strict, i);
}

/// Preparing the output tree is idempotent, and blind to prior state: the
/// result root is deleted before the skeleton is recreated, so preparing
/// twice leaves exactly what preparing once leaves, whatever stood there
/// first.
pub proof fn lemma_prepare_output_idempotent(
    existing: Set<Seq<char>>,
    other: Set<Seq<char>>,
    cfg: Buster,
    entries: Seq<Entry>,
)
    ensures
        skeleton_after(skeleton_after(existing, cfg, entries), cfg, entries) == skeleton_after(
            existing,
            cfg,
            entries,
        ),
        skeleton_after(existing, cfg, entries) == skeleton_after(other, cfg, entries),
{
}

/// With a route prefix configured and a result root that begins with `/`,
/// every recorded destination path begins with the prefix immediately
/// followed by the result root: the root's leading slash becomes the
/// separator, so no doubled slash appears.
pub proof fn lemma_prefixed_destination(cfg: Buster, path: Seq<char>, name: Seq<char>)
    requires
        cfg.prefix matches Some(p) && p@.len() > 0,
        cfg.result@.len() > 1,
        cfg.result@[0] == '/',
    ensures
        cfg.prefix matches Some(p) ==> recorded_destination(cfg, path, name).len() >= p@.len()
            + cfg.result@.len() && recorded_destination(cfg, path, name).take(
            p@.len() + cfg.result@.len() as int,
        ) == p@ + cfg.result@,
{
    match cfg.prefix {
        None => {},
        Some(p) => {
            let root = dest_root(cfg);
            assert(root =~= p@ + cfg.result@);
            let jr = spec_join(root, parent_of(strip_source(cfg.source@, path)));
            let rd = recorded_destination(cfg, path, name);
            crate::paths::lemma_spec_join_prefix(
                root,
                parent_of(strip_source(cfg.source@, path)),
            );
            crate::paths::lemma_spec_join_prefix(jr, name);
            assert(rd.take(root.len() as int) =~= jr.take(root.len() as int));
            assert(jr.take(root.len() as int) =~= root);
        },
    }
}

/// The first missing excluded path is absent exactly when every path the
/// rule names exists under the source.
proof fn lemma_first_missing_in_exact(ps: Seq<String>, source: Seq<char>, entries: Seq<Entry>)
    ensures
        first_missing_in(ps, source, entries) is None <==> forall|j: int|
            0 <= j < ps.len() ==> path_exists(entries, spec_join(source, #[trigger] ps[j]@)),
    decreases ps.len(),
{
    if ps.len() > 0 && path_exists(entries, spec_join(source, ps[0]@)) {
        lemma_first_missing_in_exact(ps.drop_first(), source, entries);
        assert(forall|j: int| 0 < j < ps.len() ==> ps.drop_first()[j - 1] == ps[j]);
        if first_missing_in(ps, source, entries) is None {
            assert(forall|j: int|
                0 < j < ps.len() ==> path_exists(
                    entries,
                    spec_join(source, #[trigger] ps[j]@),
                )) by {
                assert(forall|j: int|
                    0 <= j < ps.drop_first().len() ==> path_exists(
                        entries,
                        spec_join(source, #[trigger] ps.drop_first()[j]@),
                    ));
            }
        } else {
            assert(!(forall|j: int|
                0 <= j < ps.drop_first().len() ==> path_exists(
                    entries,
                    spec_join(source, #[trigger] ps.drop_first()[j]@),
                )));
            let j = choose|j: int|
                0 <= j < ps.drop_first().len() && !path_exists(
                    entries,
                    spec_join(source, #[trigger] ps.drop_first()[j]@),
                );
            assert(!path_exists(entries, spec_join(source, ps[j + 1]@)));
        }
    }
}

/// A configuration passes validation exactly when every path its
/// exclusion-by-path rules name exists under the source: acceptance is
/// neither narrower nor wider than that.
pub proof fn lemma_validate_exact(rules: Seq<NoHashCategory>, source: Seq<char>, entries: Seq<Entry>)
    ensures
        first_missing(rules, source, entries) is None <==> excluded_paths_exist(
            rules,
            source,
            entries,
        ),
    decreases rules.len(),
{
    if rules.len() > 0 {
        let head_missing = match rules[0] {
            NoHashCategory::FilePaths(ps) => first_missing_in(ps@, source, entries),
            NoHashCategory::FileExtentions(_) => None,
        };
        match rules[0] {
            NoHashCategory::FilePaths(ps) => {
                lemma_first_missing_in_exact(ps@, source, entries);
            },
            NoHashCategory::FileExtentions(_) => {},
        }
        if head_missing is None {
            lemma_validate_exact(rules.drop_first(), source, entries);
            assert(forall|j: int| 0 < j < rules.len() ==> rules.drop_first()[j - 1] == rules[j]);
            if first_missing(rules, source, entries) is None {
                assert(rule_paths_exist(rules[0], source, entries));
                assert(forall|j: int|
                    0 < j < rules.len() ==> rule_paths_exist(#[trigger] rules[j], source, entries))
                    by {
                    assert(forall|j: int|
                        0 <= j < rules.drop_first().len() ==> rule_paths_exist(
                            #[trigger] rules.drop_first()[j],
                            source,
                            entries,
                        ));
                }
            } else {
                assert(!excluded_paths_exist(rules.drop_first(), source, entries));
                let j = choose|j: int|
                    0 <= j < rules.drop_first().len() && !rule_paths_exist(
                        #[trigger] rules.drop_first()[j],
                        source,
                        entries,
                    );
                assert(!rule_paths_exist(rules[j + 1], source, entries));
            }
        } else {
            assert(!rule_paths_exist(rules[0], source, entries));
        }
    }
}

/// The planned copies, viewed as pairs of character sequences.
pub open spec fn copies_view(cs: Seq<CopyOp>) -> Seq<(Seq<char>, Seq<char>)> {
    Seq::new(cs.len(), |i: int| (cs[i].source@, cs[i].destination@))
}

/// The planned directories, viewed as character sequences.
pub open spec fn dirs_view(ds: Seq<String>) -> Seq<Seq<char>> {
    Seq::new(ds.len(), |i: int| ds[i]@)
}

/// An aborted run stays aborted: once a prefix of the walk fails, the whole
/// walk fails the same way.
pub proof fn lemma_run_model_err_persists(cfg: Buster, entries: Seq<Entry>, strict: bool, i: int)
    requires
        0 <= i <= entries.len(),
        run_model(cfg, entries.take(i), strict) is Err,
    ensures
        run_model(cfg, entries, strict) == run_model(cfg, entries.take(i), strict),
    decreases entries.len() - i,
{
    if i < entries.len() {
        assert(entries.take(i + 1).drop_last() =~= entries.take(i));
        lemma_run_model_err_persists(cfg, entries, strict, i + 1);
    } else {
        assert(entries.take(i) =~= entries);
    }
}

fn path_exists_exec(entries: &Vec<Entry>, p: &str) -> (r: bool)
    ensures
        r == path_exists(entries@, p@),
{
    let n = entries.len();
    let mut i: usize = 0;
    while i < n
        invariant
            n == entries@.len(),
            i <= n,
            forall|k: int| 0 <= k < i ==> #[trigger] entries@[k].path@ != p@,
        decreases n - i,
    {
        if str_eq(entries[i].path.as_str(), p) {
            proof {
                assert(entries@[i as int].path@ == p@);
            }
            return true;
        }
        i += 1;
    }
    false
}

fn first_missing_in_exec(source: &str, ps: &Vec<String>, entries: &Vec<Entry>) -> (r: Option<
    usize,
>)
    ensures
        match r {
            Some(j) => j < ps@.len() && first_missing_in(ps@, source@, entries@) == Some(
                ps@[j as int]@,
            ),
            None => first_missing_in(ps@, source@, entries@) is None,
        },
{
    let m = ps.len();
    proof {
        assert(ps@.skip(0) =~= ps@);
    }
    let mut j: usize = 0;
    while j < m
        invariant
            m == ps@.len(),
            j <= m,
            first_missing_in(ps@, source@, entries@) == first_missing_in(
                ps@.skip(j as int),
                source@,
                entries@,
            ),
        decreases m - j,
    {
        proof {
            assert(ps@.skip(j as int).len() == m - j);
            assert(ps@.skip(j as int)[0] == ps@[j as int]);
            assert(ps@.skip(j as int).drop_first() =~= ps@.skip(j as int + 1));
        }
        let joined = join_paths(source, ps[j].as_str());
        if !path_exists_exec(entries, joined.as_str()) {
            return Some(j);
        }
        j += 1;
    }
    proof {
        assert(ps@.skip(m as int) =~= Seq::<String>::empty());
    }
    None
}

fn contains_type(types: &Vec<String>, m: &str) -> (r: bool)
    ensures
        r == matches_filter(types@, m@),
{
    let n = types.len();
    let mut i: usize = 0;
    while i < n
        invariant
            n == types@.len(),
            i <= n,
            forall|k: int| 0 <= k < i ==> #[trigger] types@[k]@ != m@,
        decreases n - i,
    {
        if str_eq(types[i].as_str(), m) {
            proof {
                assert(types@[i as int]@ == m@);
            }
            return true;
        }
        i += 1;
    }
    false
}

#[verifier::loop_isolation(false)]
fn rule_excludes_exec(source: &str, rule: &NoHashCategory, path: &str) -> (r: bool)
    ensures
        r == rule_excludes(source@, *rule, path@),
{
    match rule {
        NoHashCategory::FilePaths(ps) => {
            let n = ps.len();
            let mut i: usize = 0;
            while i < n
                invariant
                    n == ps@.len(),
                    i <= n,
                    forall|k: int|
                        0 <= k < i ==> spec_join(source@, #[trigger] ps@[k]@) != path@,
                decreases n - i,
            {
                let joined = join_paths(source, ps[i].as_str());
                if str_eq(joined.as_str(), path) {
                    proof {
                        assert(spec_join(source@, ps@[i as int]@) == path@);
                        assert(exists|k: int|
                            0 <= k < ps@.len() && spec_join(source@, ps@[k]@) == path@);
                    }
                    return true;
                }
                i += 1;
            }
            false
        },
        NoHashCategory::FileExtentions(exts) => {
            match crate::paths::extension(file_name(path)) {
                None => false,
                Some(e) => {
                    let n = exts.len();
                    let mut i: usize = 0;
                    while i < n
                        invariant
                            n == exts@.len(),
                            i <= n,
                            ext_of(file_name_of(path@)) == Some(e@),
                            forall|k: int| 0 <= k < i ==> #[trigger] exts@[k]@ != e@,
                        decreases n - i,
                    {
                        if str_eq(exts[i].as_str(), e) {
                            proof {
                                assert(exts@[i as int]@ == e@);
                                assert(exists|k: int| 0 <= k < exts@.len() && exts@[k]@ == e@);
                            }
                            return true;
                        }
                        i += 1;
                    }
                    false
                },
            }
        },
    }
}

fn is_excluded_exec(source: &str, rules: &Vec<NoHashCategory>, path: &str) -> (r: bool)
    ensures
        r == excluded(source@, rules@, path@),
{
    let n = rules.len();
    let mut i: usize = 0;
    while i < n
        invariant
            n == rules@.len(),
            i <= n,
            forall|k: int| 0 <= k < i ==> !rule_excludes(source@, #[trigger] rules@[k], path@),
        decreases n - i,
    {
        if rule_excludes_exec(source, &rules[i], path) {
            proof {
                assert(rule_excludes(source@, rules@[i as int], path@));
            }
            return true;
        }
        i += 1;
    }
    false
}

impl Buster {
    /// Checks the configuration against the walked source: every path an
    /// exclusion-by-path rule names must exist under the source, or the run
    /// is refused before anything is processed.
    pub fn validate(&self, entries: &Vec<Entry>) -> (r: Result<(), BusterError>)
        ensures
            match r {
                Ok(_) => first_missing(self.no_hash@, self.source@, entries@) is None,
                Err(e) => first_missing(self.no_hash@, self.source@, entries@) matches Some(f)
                    && e@ == ErrorModel::PathNotFound(f),
            },
    {
        let n = self.no_hash.len();
        proof {
            assert(self.no_hash@.skip(0) =~= self.no_hash@);
        }
        let mut i: usize = 0;
        while i < n
            invariant
                n == self.no_hash@.len(),
                i <= n,
                first_missing(self.no_hash@, self.source@, entries@) == first_missing(
                    self.no_hash@.skip(i as int),
                    self.source@,
                    entries@,
                ),
            decreases n - i,
        {
            proof {
                assert(self.no_hash@.skip(i as int).len() == n - i);
                assert(self.no_hash@.skip(i as int)[0] == self.no_hash@[i as int]);
                assert(self.no_hash@.skip(i as int).drop_first() =~= self.no_hash@.skip(
                    i as int + 1,
                ));
            }
            match &self.no_hash[i] {
                NoHashCategory::FileExtentions(_) => {},
                NoHashCategory::FilePaths(ps) => {
                    match first_missing_in_exec(self.source.as_str(), ps, entries) {
                        None => {},
                        Some(j) => {
                            return Err(BusterError::PathNotFound(ps[j].clone()));
                        },
                    }
                },
            }
            i += 1;
        }
        proof {
            assert(self.no_hash@.skip(n as int) =~= Seq::<NoHashCategory>::empty());
        }
        Ok(())
    }

    /// One pass over the walked entries: classifies each file, names it,
    /// plans its copy, and records it in the table; `strict` decides whether
    /// an unresolvable media type or a missing extension aborts the run or
    /// skips the file.
    #[verifier::loop_isolation(false)]
    fn run(&self, entries: &Vec<Entry>, strict: bool) -> (r: Result<
        (Files, Vec<CopyOp>),
        BusterError,
    >)
        requires
            forall|k: int|
                0 <= k < entries@.len() ==> is_under(self.source@, #[trigger] entries@[k].path@),
        ensures
            match r {
                Ok(fc) => run_model(*self, entries@, strict) == Ok::<RunModel, ErrorModel>(
                    RunModel { table: fc.0@.entries, copies: copies_view(fc.1@) },
                ) && fc.0@.base_dir == self.result@ && fc.0.wf(),
                Err(e) => run_model(*self, entries@, strict) == Err::<RunModel, ErrorModel>(e@),
            },
    {
        let dest_root_s: String = match &self.prefix {
            Some(p) => join_paths(p.as_str(), crate::paths::strip_slash(self.result.as_str())),
            None => String::from_str(self.result.as_str()),
        };
        proof {
            assert(dest_root_s@ == dest_root(*self));
        }
        let mut files = Files::new(self.result.as_str());
        let mut copies: Vec<CopyOp> = Vec::new();
        let n = entries.len();
        proof {
            assert(entries@.take(0) =~= Seq::<Entry>::empty());
            assert(copies_view(copies@) =~= Seq::<(Seq<char>, Seq<char>)>::empty());
        }
        let mut i: usize = 0;
        while i < n
            invariant
                i <= n,
                files.wf(),
                files@.base_dir == self.result@,
                run_model(*self, entries@.take(i as int), strict) == Ok::<RunModel, ErrorModel>(
                    RunModel { table: files@.entries, copies: copies_view(copies@) },
                ),
            decreases n - i,
        {
            proof {
                assert(entries@.take(i + 1).drop_last() =~= entries@.take(i as int));
                assert(entries@.take(i + 1).last() == entries@[i as int]);
            }
            let ghost prev_table = files@.entries;
            let ghost prev_copies = copies_view(copies@);
            let e = &entries[i];
            if e.is_dir {
                proof {
                    assert(entry_action(*self, entries@[i as int], strict) == ActionModel::Skip);
                }
            } else {
                let fingerprint: bool;
                let mut skip_entry = false;
                match &self.mime_types {
                    None => {
                        fingerprint = true;
                    },
                    Some(types) => {
                        match guess_media_type(e.path.as_str()) {
                            None => {
                                if strict {
                                    proof {
                                        lemma_run_model_err_persists(
                                            *self,
                                            entries@,
                                            strict,
                                            i as int + 1,
                                        );
                                    }
                                    return Err(BusterError::UnresolvedMediaType(e.path.clone()));
                                }
                                fingerprint = false;
                                skip_entry = true;
                            },
                            Some(m) => {
                                if contains_type(types, m.as_str()) {
                                    fingerprint = true;
                                } else if self.copy {
                                    fingerprint = false;
                                } else {
                                    fingerprint = false;
                                    skip_entry = true;
                                }
                            },
                        }
                    },
                }
                if skip_entry {
                    proof {
                        assert(entry_action(*self, entries@[i as int], strict)
                            == ActionModel::Skip);
                    }
                } else {
                    let fname = file_name(e.path.as_str());
                    let excluded_here = is_excluded_exec(
                        self.source.as_str(),
                        &self.no_hash,
                        e.path.as_str(),
                    );
                    let new_name: String;
                    if !fingerprint || excluded_here {
                        new_name = String::from_str(fname);
                        proof {
                            assert(entry_action(*self, entries@[i as int], strict)
                                == ActionModel::Record(
                                e.path@,
                                recorded_destination(*self, e.path@, new_name@),
                                copy_destination(*self, e.path@, new_name@),
                            ));
                        }
                    } else {
                        match crate::paths::extension(fname) {
                            None => {
                                if strict {
                                    proof {
                                        lemma_run_model_err_persists(
                                            *self,
                                            entries@,
                                            strict,
                                            i as int + 1,
                                        );
                                    }
                                    return Err(BusterError::MissingExtension(e.path.clone()));
                                }
                                proof {
                                    assert(entry_action(*self, entries@[i as int], strict)
                                        == ActionModel::Skip);
                                }
                                i += 1;
                                continue ;
                            },
                            Some(ext) => {
                                let stem_s = crate::paths::stem(fname);
                                let token = hash_token(&e.contents);
                                let mut nn = String::from_str(stem_s);
                                crate::codec::push_char(&mut nn, '.');
                                nn.append(token.as_str());
                                crate::codec::push_char(&mut nn, '.');
                                nn.append(ext);
                                proof {
                                    assert(nn@ =~= stem_of(fname@) + seq!['.'] + sha256_hex_upper(
                                        e.contents@,
                                    ) + seq!['.'] + ext@);
                                }
                                new_name = nn;
                                proof {
                                    assert(fingerprint_name(fname@, e.contents@) == Some(
                                        new_name@,
                                    ));
                                    assert(entry_action(*self, entries@[i as int], strict)
                                        == ActionModel::Record(
                                        e.path@,
                                        recorded_destination(*self, e.path@, new_name@),
                                        copy_destination(*self, e.path@, new_name@),
                                    ));
                                }
                            },
                        }
                    }
                    let rel_parent = parent(
                        crate::paths::strip_source_prefix(self.source.as_str(), e.path.as_str()),
                    );
                    let recorded = join_paths(
                        join_paths(dest_root_s.as_str(), rel_parent).as_str(),
                        new_name.as_str(),
                    );
                    let copied = join_paths(
                        join_paths(self.result.as_str(), rel_parent).as_str(),
                        new_name.as_str(),
                    );
                    proof {
                        assert(recorded@ == recorded_destination(*self, e.path@, new_name@));
                        assert(copied@ == copy_destination(*self, e.path@, new_name@));
                    }
                    copies.push(CopyOp { source: e.path.clone(), destination: copied });
                    proof {
                        assert(copies_view(copies@) =~= prev_copies.push(
                            (e.path@, copy_destination(*self, e.path@, new_name@)),
                        ));
                    }
                    match files.add(e.path.clone(), recorded) {
                        Err(_) => {
                            proof {
                                assert(run_model(*self, entries@.take(i + 1), strict) == Result::<
                                    RunModel,
                                    ErrorModel,
                                >::Err(ErrorModel::DuplicateKey(e.path@)));
                                lemma_run_model_err_persists(*self, entries@, strict, i as int + 1);
                            }
                            return Err(BusterError::DuplicateKey(e.path.clone()));
                        },
                        Ok(_) => {
                            proof {
                                assert(files@.entries == prev_table.push(
                                    (e.path@, recorded_destination(*self, e.path@, new_name@)),
                                ));
                            }
                        },
                    }
                }
            }
            i += 1;
        }
        proof {
            assert(entries@.take(n as int) =~= entries@);
        }
        Ok((files, copies))
    }

    /// Processes the walked entries permissively: a file whose media type
    /// cannot be resolved, or that lacks the extension its fingerprinted
    /// name would need, is silently skipped.
    pub fn try_hash(&self, entries: &Vec<Entry>) -> (r: Result<(Files, Vec<CopyOp>), BusterError>)
        requires
            forall|k: int|
                0 <= k < entries@.len() ==> is_under(self.source@, #[trigger] entries@[k].path@),
        ensures
            match r {
                Ok(fc) => run_model(*self, entries@, false) == Ok::<RunModel, ErrorModel>(
                    RunModel { table: fc.0@.entries, copies: copies_view(fc.1@) },
                ) && fc.0@.base_dir == self.result@ && fc.0.wf(),
                Err(e) => run_model(*self, entries@, false) == Err::<RunModel, ErrorModel>(e@),
            },
    {
        self.run(entries, false)
    }

    /// Processes the walked entries strictly: a file whose media type cannot
    /// be resolved, or that lacks the extension its fingerprinted name would
    /// need, aborts the run.
    pub fn hash(&self, entries: &Vec<Entry>) -> (r: Result<(Files, Vec<CopyOp>), BusterError>)
        requires
            forall|k: int|
                0 <= k < entries@.len() ==> is_under(self.source@, #[trigger] entries@[k].path@),
        ensures
            match r {
                Ok(fc) => run_model(*self, entries@, true) == Ok::<RunModel, ErrorModel>(
                    RunModel { table: fc.0@.entries, copies: copies_view(fc.1@) },
                ) && fc.0@.base_dir == self.result@ && fc.0.wf(),
                Err(e) => run_model(*self, entries@, true) == Err::<RunModel, ErrorModel>(e@),
            },
    {
        self.run(entries, true)
    }

    /// The whole strict run: plans the output tree, then processes every
    /// walked entry, and returns the directories to create, the copies to
    /// perform, and the finished lookup table.
    pub fn process(&self, entries: &Vec<Entry>) -> (r: Result<ProcessOutput, BusterError>)
        requires
            forall|k: int|
                0 <= k < entries@.len() ==> is_under(self.source@, #[trigger] entries@[k].path@),
        ensures
            match r {
                Ok(out) => run_model(*self, entries@, true) == Ok::<RunModel, ErrorModel>(
                    RunModel { table: out.files@.entries, copies: copies_view(out.copies@) },
                ) && out.files@.base_dir == self.result@ && out.files.wf() && dirs_view(out.dirs@)
                    == mirror_dirs(*self, entries@),
                Err(e) => run_model(*self, entries@, true) == Err::<RunModel, ErrorModel>(e@),
            },
    {
        let dirs = self.init(entries);
        match self.run(entries, true) {
            Err(e) => Err(e),
            Ok((files, copies)) => Ok(ProcessOutput { dirs, copies, files }),
        }
    }

    /// Plans the output tree: the result root first, then every directory
    /// under the source recreated at its mirrored location, in walk order.
    /// The caller deletes whatever stood at the result root, then creates
    /// these directories before any file is copied.
    pub fn init(&self, entries: &Vec<Entry>) -> (r: Vec<String>)
        requires
            forall|k: int|
                0 <= k < entries@.len() ==> is_under(self.source@, #[trigger] entries@[k].path@),
        ensures
            dirs_view(r@) == mirror_dirs(*self, entries@),
    {
        let mut dirs: Vec<String> = Vec::new();
        dirs.push(String::from_str(self.result.as_str()));
        proof {
            assert(dirs_view(dirs@) =~= mirror_dirs(*self, entries@.take(0)));
        }
        let n = entries.len();
        let mut i: usize = 0;
        while i < n
            invariant
                n == entries@.len(),
                i <= n,
                forall|k: int|
                    0 <= k < entries@.len() ==> is_under(
                        self.source@,
                        #[trigger] entries@[k].path@,
                    ),
                dirs_view(dirs@) == mirror_dirs(*self, entries@.take(i as int)),
            decreases n - i,
        {
            proof {
                assert(entries@.take(i + 1).drop_last() =~= entries@.take(i as int));
                assert(entries@.take(i + 1).last() == entries@[i as int]);
            }
            let e = &entries[i];
            if e.is_dir && !str_eq(e.path.as_str(), self.source.as_str()) {
                let rel = crate::paths::strip_source_prefix(self.source.as_str(), e.path.as_str());
                let d = join_paths(self.result.as_str(), rel);
                dirs.push(d);
                proof {
                    assert(dirs_view(dirs@) =~= mirror_dirs(*self, entries@.take(i + 1)));
                }
            } else {
                proof {
                    assert(dirs_view(dirs@) =~= mirror_dirs(*self, entries@.take(i + 1)));
                }
            }
            i += 1;
        }
        proof {
            assert(entries@.take(n as int) =~= entries@);
        }
        dirs
    }
}

} // verus!
