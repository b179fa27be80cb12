//! Where V2rayU keeps its files: the generated config, the places searched
//! for the routing database, and the database's backups.
use vstd::prelude::*;
use crate::commands::CommandLine;
use crate::text::{chars_of, contains_seq, ends_with, lower_seq, push_all, string_of, to_lower};

verus! {

broadcast use vstd::string::group_string_axioms;

/// `PathBuf::join` of a relative component on Unix: a `/` goes between them
/// unless `base` is empty or already ends in `/`.
pub open spec fn join_spec(base: Seq<char>, part: Seq<char>) -> Seq<char> {
    if base.len() == 0 || base.last() == '/' {
        base + part
    } else {
        base + seq!['/'] + part
    }
}

/// `Path::join` with a relative component.
pub fn join_path(base: &str, part: &str) -> (r: String)
    ensures
        r@ == join_spec(base@, part@),
{
    let mut out = chars_of(base);
    if out.len() > 0 && out[out.len() - 1] != '/' {
        out.push('/');
    }
    let p = chars_of(part);
    push_all(&mut out, p.as_slice());
    string_of(out.as_slice())
}

/// The generated Xray config under the home directory.
pub open spec fn config_path_spec(home: Seq<char>) -> Seq<char> {
    join_spec(join_spec(home, ".V2rayU"@), "config.json"@)
}

/// `~/.V2rayU/config.json`; `home` is `$HOME`, `None` where it is not set
/// (or not text).
pub fn config_path(home: Option<String>) -> (r: Result<String, String>)
    ensures
        match home {
            None => r matches Err(e) && e@ == "HOME is unavailable"@,
            Some(h) => r matches Ok(p) && p@ == config_path_spec(h@),
        },
{
    match home {
        None => Err("HOME is unavailable".to_string()),
        Some(h) => {
            let d = join_path(h.as_str(), ".V2rayU");
            Ok(join_path(d.as_str(), "config.json"))
        },
    }
}

/// The directories searched for the routing database, in this order.
pub open spec fn search_roots_spec(home: Seq<char>) -> Seq<Seq<char>> {
    seq![
        join_spec(home, ".V2rayU"@),
        join_spec(home, "Library/Application Support/V2rayU"@),
        join_spec(home, "Library/Application Support/net.yanue.V2rayU"@),
    ]
}

/// The directories searched (four levels deep) for the routing database.
pub fn routing_db_roots(home: &str) -> (r: Vec<String>)
    ensures
        crate::commands::strings_view(r@) == search_roots_spec(home@),
{
    let r = vec![
        join_path(home, ".V2rayU"),
        join_path(home, "Library/Application Support/V2rayU"),
        join_path(home, "Library/Application Support/net.yanue.V2rayU"),
    ];
    assert(crate::commands::strings_view(r@) =~= search_roots_spec(home@));
    r
}

/// A file name, ignoring ASCII case, that may be the routing database: a
/// `.db`, `.sqlite` or `.sqlite3` file, or one with `v2ray` in its name.
pub open spec fn candidate_name_spec(name: Seq<char>) -> bool {
    let n = lower_seq(name);
    ends_with(n, ".db"@) || ends_with(n, ".sqlite"@) || ends_with(n, ".sqlite3"@) || contains_seq(
        n,
        "v2ray"@,
    )
}

/// Whether a file with this name is worth probing for the routing table.
pub fn is_candidate_db_name(name: &str) -> (r: bool)
    ensures
        r == candidate_name_spec(name@),
{
    let c = chars_of(name);
    let n = to_lower(c.as_slice());
    let s = n.as_slice();
    let db = chars_of(".db");
    let sqlite = chars_of(".sqlite");
    let sqlite3 = chars_of(".sqlite3");
    let v2ray = chars_of("v2ray");
    crate::text::has_suffix(s, db.as_slice()) || crate::text::has_suffix(s, sqlite.as_slice())
        || crate::text::has_suffix(s, sqlite3.as_slice()) || crate::text::contains_chars(
        s,
        v2ray.as_slice(),
    )
}

/// Whether the search reads a directory: it has depth left and exists.
pub open spec fn reads_dir_spec(depth: usize, exists: bool) -> bool {
    depth > 0 && exists
}

/// Whether the search for the routing database reads the directory that it
/// reached with `depth` levels left.
pub fn reads_dir(depth: usize, exists: bool) -> (r: bool)
    ensures
        r == reads_dir_spec(depth, exists),
{
    depth > 0 && exists
}

/// What the search does with one entry of a directory it reads.
#[derive(Clone, Copy, Debug, PartialEq, Eq)]
pub enum WalkEntry {
    /// A directory to search with this many levels left.
    Descend(usize),
    /// A file that may be the routing database.
    Collect,
    /// Nothing to do.
    Skip,
}

/// An entry of a directory read with `depth` levels left: a directory is
/// searched one level less deep where a level is left for it; a file is
/// collected where its name may be the routing database.
pub open spec fn walk_entry_spec(depth: usize, is_dir: bool, is_file: bool, name: Seq<char>) -> WalkEntry {
    if is_dir {
        if depth > 1 {
            WalkEntry::Descend((depth - 1) as usize)
        } else {
            WalkEntry::Skip
        }
    } else if is_file && candidate_name_spec(name) {
        WalkEntry::Collect
    } else {
        WalkEntry::Skip
    }
}

/// Decides what the search does with one directory entry; `name` is the
/// entry's file name (empty where it is no text).
pub fn walk_entry(depth: usize, is_dir: bool, is_file: bool, name: &str) -> (r: WalkEntry)
    ensures
        r == walk_entry_spec(depth, is_dir, is_file, name@),
{
    if is_dir {
        if depth > 1 {
            WalkEntry::Descend(depth - 1)
        } else {
            WalkEntry::Skip
        }
    } else if is_file && is_candidate_db_name(name) {
        WalkEntry::Collect
    } else {
        WalkEntry::Skip
    }
}

/// Names what `Path::with_extension` returns for a path and an extension.
pub uninterp spec fn path_with_extension(path: Seq<char>, extension: Seq<char>) -> Seq<char>;

/// `Path::new(path).with_extension(extension)`, as text. Its result is
/// named, not stated: which part of the file name counts as its extension is
/// left to std. std panics on an extension that holds a path separator, so
/// such an extension is not admitted.
#[verifier::external_body]
fn with_extension(path: &str, extension: &str) -> (r: String)
    requires
        !extension@.contains('/'),
    ensures
        r@ == path_with_extension(path@, extension@),
{
    std::path::Path::new(path).with_extension(extension).to_string_lossy().into_owned()
}

/// A backup to take: where it goes and the `sqlite3` command that writes it.
pub struct BackupPlan {
    pub backup: String,
    pub command: CommandLine,
}

/// The backup path of the database `db` taken at `stamp` (seconds since
/// the Unix epoch): its extension replaced by `v2proxyshell-<stamp>.bak`.
pub open spec fn backup_path_spec(db: Seq<char>, stamp: u64) -> Seq<char> {
    path_with_extension(db, "v2proxyshell-"@ + crate::text::decimal(stamp as nat) + ".bak"@)
}

/// Plans the backup of the database `db` at `stamp`: `sqlite3 <db>
/// ".backup '<backup>'"`, the path quoted for SQL.
pub fn backup_database(db: &str, stamp: u64) -> (r: BackupPlan)
    ensures
        r.backup@ == backup_path_spec(db@, stamp),
        r.command@ == (
            "sqlite3"@,
            seq![
                db@,
                ".backup '"@ + crate::routing::sql_quote_spec(backup_path_spec(db@, stamp)) + "'"@,
            ],
        ),
{
    let mut ext = chars_of("v2proxyshell-");
    crate::text::push_decimal(&mut ext, stamp as u128);
    let bak = chars_of(".bak");
    push_all(&mut ext, bak.as_slice());
    proof {
        reveal_strlit("v2proxyshell-");
        reveal_strlit(".bak");
        crate::laws::lemma_decimal(stamp as nat);
        let d = crate::text::decimal(stamp as nat);
        assert(ext@ =~= "v2proxyshell-"@ + d + ".bak"@);
        assert forall|i: int| 0 <= i < ext@.len() implies ext@[i] != '/' by {
            if 13 <= i < 13 + d.len() {
                assert(ext@[i] == d[i - 13]);
                assert(crate::text::is_digit(d[i - 13]));
            }
        }
    }
    let ext_s = string_of(ext.as_slice());
    let backup = with_extension(db, ext_s.as_str());
    let quoted = crate::routing::sql_quote(backup.as_str());
    let mut arg = chars_of(".backup '");
    let q = chars_of(quoted.as_str());
    push_all(&mut arg, q.as_slice());
    let close = chars_of("'");
    push_all(&mut arg, close.as_slice());
    let args = vec![db.to_string(), string_of(arg.as_slice())];
    let command = CommandLine { program: "sqlite3".to_string(), args };
    assert(crate::commands::strings_view(command.args@) =~= seq![
        db@,
        ".backup '"@ + crate::routing::sql_quote_spec(backup_path_spec(db@, stamp)) + "'"@,
    ]);
    BackupPlan { backup, command }
}

/// A backup of the routing database that was taken: the database and the
/// backup's path. Its fields are private and `BackupTaken::confirm` is its
/// only constructor, which gives one only where the backup command ran to
/// success; the SQL that changes the routing table is built only from one.
pub struct BackupTaken {
    db: String,
    backup: String,
}

impl BackupTaken {
    /// The database that was backed up.
    pub closed spec fn db(&self) -> Seq<char> {
        self.db@
    }

    /// Where the backup went.
    pub closed spec fn backup(&self) -> Seq<char> {
        self.backup@
    }

    /// The backup of `db` at `stamp` (as `backup_database(db, stamp)` plans
    /// it) once its command ran: `outcome` is what running that command gave
    /// (see `commands::command_output`). A failed backup stops the change with
    /// the command's error.
    pub fn confirm(db: &str, stamp: u64, outcome: Result<String, String>) -> (r: Result<
        BackupTaken,
        String,
    >)
        ensures
            outcome is Ok <==> r is Ok,
            r matches Ok(t) ==> t.db() == db@ && t.backup() == backup_path_spec(db@, stamp),
            r matches Err(e) ==> outcome matches Err(o) && e@ == o@,
    {
        match outcome {
            Ok(_) => {
                let plan = backup_database(db, stamp);
                Ok(BackupTaken { db: db.to_string(), backup: plan.backup })
            },
            Err(e) => Err(e),
        }
    }

    /// Where the backup went.
    pub fn path(&self) -> (r: &str)
        ensures
            r@ == self.backup(),
    {
        self.backup.as_str()
    }
}

/// Names the order of `Path::cmp` as -1, 0 or 1 (less, equal, greater).
pub uninterp spec fn path_order(a: Seq<char>, b: Seq<char>) -> int;

/// `Path::new(a).cmp(Path::new(b))` as -1, 0 or 1. Beside naming the result,
/// the contract states what `Ord` documents of any order: a path equals
/// itself, the order is antisymmetric, and `<` and `==` are transitive
/// (here for every third path `c` beside `a` and `b`). How paths compare
/// (component by component) is left to std.
#[verifier::external_body]
fn compare_paths(a: &str, b: &str) -> (r: i8)
    ensures
        r == path_order(a@, b@),
        -1 <= r <= 1,
        path_order(b@, a@) == -r,
        a@ == b@ ==> r == 0,
        forall|c: Seq<char>|
            r == -1 && #[trigger] path_order(b@, c) == -1 ==> path_order(a@, c) == -1
                && path_order(c, a@) == 1,
        forall|c: Seq<char>|
            r == 1 && #[trigger] path_order(a@, c) == -1 ==> path_order(b@, c) == -1
                && path_order(c, b@) == 1,
        forall|c: Seq<char>|
            r == -1 && #[trigger] path_order(c, a@) == -1 ==> path_order(c, b@) == -1
                && path_order(b@, c) == 1,
        forall|c: Seq<char>|
            r == 1 && #[trigger] path_order(c, b@) == -1 ==> path_order(c, a@) == -1
                && path_order(a@, c) == 1,
        forall|c: Seq<char>| r == 0 ==> #[trigger] path_order(a@, c) == path_order(b@, c),
        forall|c: Seq<char>| r == 0 ==> #[trigger] path_order(c, a@) == path_order(c, b@),
{
    match std::path::Path::new(a).cmp(std::path::Path::new(b)) {
        std::cmp::Ordering::Less => -1,
        std::cmp::Ordering::Equal => 0,
        std::cmp::Ordering::Greater => 1,
    }
}

/// Each path comes strictly before every later one.
pub open spec fn strictly_ascending(v: Seq<Seq<char>>) -> bool {
    forall|i: int, j: int| 0 <= i < j < v.len() ==> path_order(#[trigger] v[i], #[trigger] v[j]) == -1
}

/// `x` stands in `v`, or `v` holds a path equal to it.
pub open spec fn represented(v: Seq<Seq<char>>, x: Seq<char>) -> bool {
    v.contains(x) || exists|j: int| 0 <= j < v.len() && path_order(#[trigger] v[j], x) == 0
}

/// `x` stands among the first `n` paths of `v`, and no path before it
/// equals it.
pub open spec fn earliest_before(v: Seq<Seq<char>>, n: int, x: Seq<char>) -> bool {
    exists|w: int|
        0 <= w < n && w < v.len() && #[trigger] v[w] == x && forall|u: int|
            0 <= u < w ==> path_order(#[trigger] v[u], x) != 0
}

/// `x` is the first of `v` among the paths equal to it.
pub open spec fn first_of_equals(v: Seq<Seq<char>>, x: Seq<char>) -> bool {
    earliest_before(v, v.len() as int, x)
}

/// `a` and `b` stand in the same place of the order: each compares with any
/// path as the other does.
pub open spec fn same_place(a: Seq<char>, b: Seq<char>) -> bool {
    forall|c: Seq<char>| #[trigger] path_order(a, c) == path_order(b, c)
}

/// `v` holds `y`, or a path equal to it, that compares as `y` does.
pub open spec fn stands_for(v: Seq<Seq<char>>, y: Seq<char>) -> bool {
    exists|m: int|
        0 <= m < v.len() && (#[trigger] v[m] == y || path_order(v[m], y) == 0) && same_place(
            v[m],
            y,
        )
}

/// The candidate files sorted by path and without equal paths, as
/// `sort` and `dedup` leave a list of paths: of equal paths the first one
/// stays.
pub fn routing_db_candidates(paths: Vec<String>) -> (r: Vec<String>)
    ensures
        strictly_ascending(crate::commands::strings_view(r@)),
        forall|j: int|
            0 <= j < r@.len() ==> first_of_equals(
                crate::commands::strings_view(paths@),
                #[trigger] crate::commands::strings_view(r@)[j],
            ),
        forall|k: int|
            0 <= k < paths@.len() ==> represented(
                crate::commands::strings_view(r@),
                #[trigger] paths@[k]@,
            ),
{
    let mut out: Vec<String> = Vec::new();
    let mut k: usize = 0;
    let ghost input = crate::commands::strings_view(paths@);
    while k < paths.len()
        invariant
            k <= paths@.len(),
            input == crate::commands::strings_view(paths@),
            strictly_ascending(crate::commands::strings_view(out@)),
            forall|m: int|
                0 <= m < out@.len() ==> earliest_before(
                    input,
                    k as int,
                    #[trigger] crate::commands::strings_view(out@)[m],
                ),
            forall|u: int|
                0 <= u < k ==> stands_for(crate::commands::strings_view(out@), #[trigger] input[u]),
        decreases paths@.len() - k,
    {
        let x = &paths[k];
        assert(input[k as int] == x@);
        let ghost before = crate::commands::strings_view(out@);
        let mut j: usize = 0;
        while j < out.len() && compare_paths(out[j].as_str(), x.as_str()) == -1
            invariant
                j <= out@.len(),
                forall|i: int| 0 <= i < j ==> path_order(#[trigger] out@[i]@, x@) == -1,
            decreases out@.len() - j,
        {
            j = j + 1;
        }
        if j < out.len() && compare_paths(out[j].as_str(), x.as_str()) == 0 {
            assert(before[j as int] == out@[j as int]@);
            assert(path_order(before[j as int], x@) == 0);
            assert(same_place(before[j as int], x@));
            assert forall|m: int| 0 <= m < out@.len() implies earliest_before(
                input,
                k + 1,
                #[trigger] crate::commands::strings_view(out@)[m],
            ) by {
                assert(earliest_before(input, k as int, before[m]));
            }
            assert forall|u: int| 0 <= u < k + 1 implies stands_for(
                crate::commands::strings_view(out@),
                #[trigger] input[u],
            ) by {
                if u == k {
                    assert(before[j as int] == input[u] || path_order(before[j as int], input[u]) == 0);
                }
            }
        } else {
            proof {
                if j < out@.len() {
                    assert(path_order(before[j as int], x@) == 1);
                }
                assert forall|m: int| 0 <= m < before.len() implies path_order(
                    #[trigger] before[m],
                    x@,
                ) != 0 by {
                    assert(before[m] == out@[m]@);
                    if m > j {
                        assert(path_order(before[j as int], before[m]) == -1);
                    }
                }
                assert forall|u: int| 0 <= u < k implies path_order(#[trigger] input[u], x@) != 0 by {
                    assert(stands_for(before, input[u]));
                    let m = choose|m: int|
                        0 <= m < before.len() && (#[trigger] before[m] == input[u] || path_order(
                            before[m],
                            input[u],
                        ) == 0) && same_place(before[m], input[u]);
                    assert(path_order(before[m], x@) != 0);
                    assert(path_order(before[m], x@) == path_order(input[u], x@));
                }
            }
            out.insert(j, x.clone());
            let ghost after = crate::commands::strings_view(out@);
            assert(after =~= before.insert(j as int, x@));
            assert forall|a: int, b: int| 0 <= a < b < after.len() implies path_order(
                #[trigger] after[a],
                #[trigger] after[b],
            ) == -1 by {
                if b < j {
                    assert(after[a] == before[a] && after[b] == before[b]);
                } else if b == j {
                    assert(after[a] == before[a] && after[b] == x@);
                    assert(before[a] == out@[a]@) by {
                        assert(after[a] == out@[a]@);
                    }
                } else if a == j {
                    assert(after[a] == x@ && after[b] == before[b - 1]);
                    if b - 1 > j {
                        assert(path_order(before[j as int], before[b - 1]) == -1);
                    }
                } else if a < j {
                    assert(after[a] == before[a] && after[b] == before[b - 1]);
                } else {
                    assert(after[a] == before[a - 1] && after[b] == before[b - 1]);
                }
            }
            assert forall|m: int| 0 <= m < out@.len() implies earliest_before(
                input,
                k + 1,
                #[trigger] crate::commands::strings_view(out@)[m],
            ) by {
                if m < j {
                    assert(after[m] == before[m]);
                    assert(earliest_before(input, k as int, before[m]));
                } else if m > j {
                    assert(after[m] == before[m - 1]);
                    assert(earliest_before(input, k as int, before[m - 1]));
                } else {
                    assert(after[m] == x@);
                    assert(input[k as int] == after[m]);
                }
            }
            assert forall|u: int| 0 <= u < k + 1 implies stands_for(after, #[trigger] input[u]) by {
                if u == k {
                    assert(after[j as int] == input[u]);
                } else {
                    assert(stands_for(before, input[u]));
                    let m = choose|m: int|
                        0 <= m < before.len() && (#[trigger] before[m] == input[u] || path_order(
                            before[m],
                            input[u],
                        ) == 0) && same_place(before[m], input[u]);
                    if m < j {
                        assert(after[m] == before[m]);
                    } else {
                        assert(after[m + 1] == before[m]);
                    }
                }
            }
        }
        k = k + 1;
    }
    assert forall|k: int| 0 <= k < paths@.len() implies represented(
        crate::commands::strings_view(out@),
        #[trigger] paths@[k]@,
    ) by {
        assert(input[k] == paths@[k]@);
        let v = crate::commands::strings_view(out@);
        assert(stands_for(v, input[k]));
        let m = choose|m: int|
            0 <= m < v.len() && (#[trigger] v[m] == input[k] || path_order(v[m], input[k]) == 0)
                && same_place(v[m], input[k]);
        if v[m] == input[k] {
            assert(v.contains(input[k]));
        }
    }
    out
}

/// The position of the first listing among the first `n` of `outs` that
/// shows a `routing` table, or `n`.
pub open spec fn first_routing_listing(outs: Seq<Seq<char>>, n: int) -> int
    decreases n,
{
    if n <= 0 {
        0
    } else {
        let k = first_routing_listing(outs, n - 1);
        if k < n - 1 {
            k
        } else if crate::routing::is_routing_db_spec(outs[n - 1]) {
            n - 1
        } else {
            n
        }
    }
}

/// The next step of the search for the routing database.
pub enum DbSearchStep {
    /// Probe this candidate: run `sqlite3 <candidate> routing_table_sql()`
    /// and hand over its output (empty where it failed).
    Probe(usize),
    /// The routing database.
    Found(String),
    /// No candidate holds a routing table.
    NotFound(String),
}

/// The step after probing `candidates[0..outputs.len()]` (in order) with the
/// listings `outputs`: the first candidate whose listing shows a `routing`
/// table, else the next candidate to probe, else the error.
pub open spec fn discover_spec(candidates: Seq<Seq<char>>, outputs: Seq<Seq<char>>) -> (
    int,
    Option<Seq<char>>,
) {
    let n = if outputs.len() < candidates.len() {
        outputs.len() as int
    } else {
        candidates.len() as int
    };
    let k = first_routing_listing(outputs, n);
    if k < n {
        (k, Some(candidates[k]))
    } else {
        (n, None)
    }
}

pub(crate) proof fn lemma_first_routing_listing(outs: Seq<Seq<char>>, n: int)
    requires
        0 <= n <= outs.len(),
    ensures
        0 <= first_routing_listing(outs, n) <= n,
        forall|j: int|
            0 <= j < first_routing_listing(outs, n) ==> !crate::routing::is_routing_db_spec(
                #[trigger] outs[j],
            ),
        first_routing_listing(outs, n) < n ==> crate::routing::is_routing_db_spec(
            outs[first_routing_listing(outs, n)],
        ),
    decreases n,
{
    if n > 0 {
        lemma_first_routing_listing(outs, n - 1);
    }
}

/// One step of the search for the routing database over the sorted
/// candidates: `outputs[k]` is the listing of `candidates[k]`.
pub fn discover_routing_db(candidates: &Vec<String>, outputs: &Vec<String>) -> (r: DbSearchStep)
    ensures
        ({
            let c = crate::commands::strings_view(candidates@);
            let o = crate::commands::strings_view(outputs@);
            let (k, found) = discover_spec(c, o);
            match r {
                DbSearchStep::Found(p) => found == Some(p@),
                DbSearchStep::Probe(i) => found is None && i == k && i < c.len(),
                DbSearchStep::NotFound(e) => found is None && k >= c.len() && e@
                    == "V2rayU routing database was not found"@,
            }
        }),
{
    let ghost c = crate::commands::strings_view(candidates@);
    let ghost o = crate::commands::strings_view(outputs@);
    let n = if outputs.len() < candidates.len() {
        outputs.len()
    } else {
        candidates.len()
    };
    let mut k: usize = 0;
    while k < n
        invariant
            k <= n <= outputs@.len(),
            n <= candidates@.len(),
            o == crate::commands::strings_view(outputs@),
            c == crate::commands::strings_view(candidates@),
            n == (if outputs@.len() < candidates@.len() { outputs@.len() } else { candidates@.len() }),
            first_routing_listing(o, k as int) == k,
        decreases n - k,
    {
        assert(o[k as int] == outputs@[k as int]@);
        if crate::routing::is_routing_db(outputs[k].as_str()) {
            assert(first_routing_listing(o, k + 1) == k);
            proof {
                lemma_first_routing_listing(o, n as int);
                lemma_first_routing_prefix(o, k + 1, n as int);
            }
            let p = candidates[k].clone();
            assert(first_routing_listing(o, n as int) == k);
            assert(c[k as int] == p@);
            assert(discover_spec(c, o) == (k as int, Some(p@)));
            return DbSearchStep::Found(p);
        }
        k = k + 1;
    }
    if n < candidates.len() {
        DbSearchStep::Probe(n)
    } else {
        DbSearchStep::NotFound("V2rayU routing database was not found".to_string())
    }
}

proof fn lemma_first_routing_prefix(outs: Seq<Seq<char>>, m: int, n: int)
    requires
        0 <= m <= n,
        first_routing_listing(outs, m) < m,
    ensures
        first_routing_listing(outs, n) == first_routing_listing(outs, m),
    decreases n - m,
{
    if n > m {
        lemma_first_routing_prefix(outs, m, n - 1);
    }
}

} // verus!
