//! The image archive's metadata and how a merge rewrites it.
use crate::error::SquashError;
use crate::layer::{
    count_matches, is_first_match, select_from_id, select_latest, short_id_message, zero_layers_message,
    LayerInfo,
};
use crate::text::{chars_of, decimal, occurs_at, push_decimal, push_str, string_of};
use vstd::prelude::*;
use vstd::string::StrSliceExecFns;

verus! {

#[verifier::external_type_specification]
#[verifier::external_body]
pub struct ExTempDir(tempfile::TempDir);

/// The description of an image in its archive: config file, tags and layers.
#[derive(Debug, Clone)]
pub struct DockerManifest {
    /// Path of the config JSON inside the archive.
    pub config: String,
    /// `name:tag` strings.
    pub repo_tags: Option<Vec<String>>,
    /// Paths of the layer tarballs inside the archive, oldest first.
    pub layers: Vec<String>,
}

/// The runtime part of the image config.
#[derive(Debug, Clone)]
pub struct ConfigDetails {
    pub env: Option<Vec<String>>,
    pub cmd: Option<Vec<String>>,
    pub working_dir: Option<String>,
    /// The keys of `ExposedPorts`.
    pub exposed_ports: Option<Vec<String>>,
}

/// The root filesystem description of the image config.
#[derive(Debug, Clone)]
pub struct RootFs {
    /// Always `layers`.
    pub fs_type: String,
    /// One diff-id per layer, oldest first.
    pub diff_ids: Vec<String>,
}

/// One step of the image's build history.
#[derive(Debug, Clone)]
pub struct HistoryEntry {
    pub created: String,
    pub created_by: String,
    /// `Some(true)` for a step that added no layer.
    pub empty_layer: Option<bool>,
}

/// The image config JSON.
#[derive(Debug, Clone)]
pub struct DockerConfig {
    pub architecture: String,
    pub config: ConfigDetails,
    pub rootfs: RootFs,
    pub history: Vec<HistoryEntry>,
}

/// An image read from an archive.
pub struct DockerImage {
    pub manifest: DockerManifest,
    pub config: DockerConfig,
    pub source_path: std::path::PathBuf,
    /// The layers, parallel to `manifest.layers`.
    pub layers: Vec<LayerInfo>,
    /// The staging directory that holds the extracted archive.
    pub temp_dir: Option<tempfile::TempDir>,
}

/// The name of the merged layer inside the output archive.
pub open spec fn merged_layer_name() -> Seq<char> {
    "merged_layer.tar"@
}

pub open spec fn is_empty_layer(h: HistoryEntry) -> bool {
    h.empty_layer == Some(true)
}

/// How many entries of `hs` record a layer.
pub open spec fn non_empty_count(hs: Seq<HistoryEntry>) -> nat
    decreases hs.len(),
{
    if hs.len() == 0 {
        0
    } else {
        non_empty_count(hs.drop_last()) + if is_empty_layer(hs.last()) {
            0nat
        } else {
            1nat
        }
    }
}

/// How many entries at the end of `hs` belong to its newest `k` layers:
/// everything from the `k`-th entry that records a layer, counted from the
/// end, onwards; all of `hs` where fewer than `k` record one.
pub open spec fn merged_history_len(hs: Seq<HistoryEntry>, k: nat) -> nat
    decreases hs.len(),
{
    if hs.len() == 0 || k == 0 {
        0
    } else if is_empty_layer(hs.last()) {
        1 + merged_history_len(hs.drop_last(), k)
    } else {
        1 + merged_history_len(hs.drop_last(), (k - 1) as nat)
    }
}

/// The first `n` items of `s`, or all of them where it has fewer.
pub open spec fn truncated<T>(s: Seq<T>, n: nat) -> Seq<T> {
    if n < s.len() {
        s.subrange(0, n as int)
    } else {
        s
    }
}

pub open spec fn merge_note(k: nat) -> Seq<char> {
    "squash: merged "@ + decimal(k) + " layers"@
}

/// The consistency that the image format asks of the metadata: as many layer
/// paths as diff-ids, and as many as history entries that record a layer.
pub open spec fn consistent(m: DockerManifest, c: DockerConfig) -> bool {
    &&& m.layers@.len() == c.rootfs.diff_ids@.len()
    &&& c.rootfs.diff_ids@.len() == non_empty_count(c.history@)
}

/// What a merge of the newest `k` layers into a layer with diff-id `digest`,
/// recorded at time `created`, leaves of the image metadata.
pub open spec fn merge_recorded(
    before: DockerImage,
    after: DockerImage,
    k: nat,
    digest: Seq<char>,
) -> bool {
    let kept = (before.manifest.layers@.len() - k) as nat;
    let hs = before.config.history@;
    let cut = (hs.len() - merged_history_len(hs, k)) as int;
    &&& after.manifest.config == before.manifest.config
    &&& after.manifest.repo_tags == before.manifest.repo_tags
    &&& after.manifest.layers@.len() == kept + 1
    &&& forall|i: int| 0 <= i < kept ==> (#[trigger] after.manifest.layers@[i])@ == before.manifest.layers@[i]@
    &&& after.manifest.layers@[kept as int]@ == merged_layer_name()
    &&& after.config.architecture == before.config.architecture
    &&& after.config.rootfs.fs_type == before.config.rootfs.fs_type
    &&& after.config.rootfs.diff_ids@.len() == truncated(before.config.rootfs.diff_ids@, kept).len() + 1
    &&& forall|i: int|
        0 <= i < truncated(before.config.rootfs.diff_ids@, kept).len() ==> (
        #[trigger] after.config.rootfs.diff_ids@[i])@ == before.config.rootfs.diff_ids@[i]@
    &&& after.config.rootfs.diff_ids@.last()@ == digest
    &&& after.config.history@.len() == cut + 1
    &&& forall|i: int| 0 <= i < cut ==> #[trigger] after.config.history@[i] == hs[i]
    &&& after.config.history@[cut].created_by@ == merge_note(k)
    &&& after.config.history@[cut].empty_layer == Some(false)
    &&& after.layers@.len() == before.layers@.len() - k + 1
    &&& forall|i: int| 0 <= i < before.layers@.len() - k ==> #[trigger] after.layers@[i] == before.layers@[i]
    &&& after.config.config == before.config.config
    &&& after.source_path == before.source_path
    &&& after.temp_dir == before.temp_dir
}


/// How many entries at the end of `hs` belong to its newest `k` layers.
pub fn merged_history_count(hs: &Vec<HistoryEntry>, k: usize) -> (r: usize)
    ensures
        r == merged_history_len(hs@, k as nat),
        r <= hs@.len(),
{
    let ghost all = hs@;
    let mut i: usize = hs.len();
    let mut remaining: usize = k;
    assert(all.subrange(0, i as int) =~= all);
    while i > 0 && remaining > 0
        invariant
            all == hs@,
            i <= all.len(),
            (all.len() - i) + merged_history_len(all.subrange(0, i as int), remaining as nat)
                == merged_history_len(all, k as nat),
        decreases i,
    {
        assert(all.subrange(0, i as int).drop_last() =~= all.subrange(0, i - 1));
        i = i - 1;
        match hs[i].empty_layer {
            Some(true) => {},
            _ => {
                remaining = remaining - 1;
            },
        }
    }
    hs.len() - i
}

fn copy_text(s: &String) -> (r: String)
    ensures
        r@ == s@,
{
    s.clone()
}

pub open spec fn is_digit(c: char) -> bool {
    '0' <= c <= '9'
}

pub open spec fn digit_value(c: char) -> nat {
    (c as u32 - '0' as u32) as nat
}

pub open spec fn digits_value(ds: Seq<char>) -> nat
    decreases ds.len(),
{
    if ds.len() == 0 {
        0
    } else {
        digits_value(ds.drop_last()) * 10 + digit_value(ds.last())
    }
}

pub open spec fn unsigned_part(s: Seq<char>) -> Seq<char> {
    if s.len() > 0 && s[0] == '+' {
        s.drop_first()
    } else {
        s
    }
}

/// The number that `s` spells, where it spells one that fits in `usize`,
/// read the way `usize::from_str` reads it: an optional `+`, then one or more
/// decimal digits.
pub open spec fn parsed_count(s: Seq<char>) -> Option<nat> {
    let ds = unsigned_part(s);
    if ds.len() > 0 && (forall|i: int| 0 <= i < ds.len() ==> is_digit(#[trigger] ds[i])) && digits_value(ds)
        <= usize::MAX {
        Some(digits_value(ds))
    } else {
        None
    }
}

proof fn lemma_digits_grow(ds: Seq<char>, j: int)
    requires
        0 <= j <= ds.len(),
        forall|i: int| 0 <= i < ds.len() ==> is_digit(#[trigger] ds[i]),
    ensures
        digits_value(ds.subrange(0, j)) <= digits_value(ds),
    decreases ds.len(),
{
    if j < ds.len() {
        assert(ds.drop_last().subrange(0, j) =~= ds.subrange(0, j));
        lemma_digits_grow(ds.drop_last(), j);
    } else {
        assert(ds.subrange(0, j) =~= ds);
    }
}

/// The count that a layer specification spells, if it spells one.
pub fn parse_count(s: &str) -> (r: Option<usize>)
    ensures
        r matches Some(n) ==> parsed_count(s@) == Some(n as nat),
        r is None ==> parsed_count(s@) is None,
{
    let n = s.unicode_len();
    let mut i: usize = 0;
    if n > 0 && s.get_char(0) == '+' {
        i = 1;
    }
    let ghost ds = unsigned_part(s@);
    let ghost start = i as int;
    assert(ds =~= s@.subrange(start, n as int));
    if i == n {
        return None;
    }
    let mut value: usize = 0;
    assert(ds.subrange(0, 0) =~= Seq::<char>::empty());
    while i < n
        invariant
            n == s@.len(),
            0 <= start <= 1,
            ds == unsigned_part(s@),
            ds == s@.subrange(start, n as int),
            start <= i <= n,
            forall|k: int| 0 <= k < i - start ==> is_digit(#[trigger] ds[k]),
            value == digits_value(ds.subrange(0, i - start)),
        decreases n - i,
    {
        let c = s.get_char(i);
        assert(c == ds[i - start]);
        if c < '0' || c > '9' {
            assert(!is_digit(ds[i - start]));
            assert(!(forall|k: int| 0 <= k < ds.len() ==> is_digit(#[trigger] ds[k])));
            assert(unsigned_part(s@) == ds);
            return None;
        }
        let d = (c as u32 - '0' as u32) as usize;
        assert(ds.subrange(0, i + 1 - start).drop_last() =~= ds.subrange(0, i - start));
        assert(ds.subrange(0, i + 1 - start).last() == c);
        assert(digits_value(ds.subrange(0, i + 1 - start)) == value * 10 + d);
        match value.checked_mul(10) {
            Some(v) => match v.checked_add(d) {
                Some(w) => {
                    value = w;
                },
                None => {
                    proof { lemma_overflow(ds, i + 1 - start); }
                    assert(unsigned_part(s@) == ds);
                    return None;
                },
            },
            None => {
                proof { lemma_overflow(ds, i + 1 - start); }
                assert(unsigned_part(s@) == ds);
                return None;
            },
        }
        i = i + 1;
    }
    assert(ds.subrange(0, n - start) =~= ds);
    Some(value)
}

proof fn lemma_overflow(ds: Seq<char>, j: int)
    requires
        0 < j <= ds.len(),
        digits_value(ds.subrange(0, j)) > usize::MAX,
    ensures
        !((forall|i: int| 0 <= i < ds.len() ==> is_digit(#[trigger] ds[i])) && digits_value(ds) <= usize::MAX),
{
    if forall|i: int| 0 <= i < ds.len() ==> is_digit(#[trigger] ds[i]) {
        lemma_digits_grow(ds, j);
    }
}


pub open spec fn no_layers_message() -> Seq<char> {
    "No layers to merge"@
}

pub open spec fn image_too_small_message(count: nat, available: nat) -> Seq<char> {
    "Cannot merge "@ + decimal(count) + " layers, image only has "@ + decimal(available) + " layers"@
}

/// Which layers a squash merges.
pub struct SquashPlan {
    /// Index of the first layer merged; the rest up to the newest follow.
    pub start: usize,
    /// How many layers are merged.
    pub count: usize,
    /// For a digest prefix, how many layers it matched; zero for a count.
    pub matches: usize,
}

/// After a year of `y` characters that ends in four digits, `s` goes on with
/// `-MM-DDTHH:MM:SS`, then optional fractional seconds, and ends in `+00:00`.
pub open spec fn rfc3339_after_year(s: Seq<char>, y: int) -> bool {
    &&& 4 <= y
    &&& y + 21 <= s.len()
    &&& forall|k: int| y - 4 <= k < y ==> is_digit(#[trigger] s[k])
    &&& s[y] == '-' && is_digit(s[y + 1]) && is_digit(s[y + 2])
    &&& s[y + 3] == '-' && is_digit(s[y + 4]) && is_digit(s[y + 5])
    &&& s[y + 6] == 'T' && is_digit(s[y + 7]) && is_digit(s[y + 8])
    &&& s[y + 9] == ':' && is_digit(s[y + 10]) && is_digit(s[y + 11])
    &&& s[y + 12] == ':' && is_digit(s[y + 13]) && is_digit(s[y + 14])
    &&& s.subrange(s.len() - 6, s.len() as int) == seq!['+', '0', '0', ':', '0', '0']
}

/// `s` has the shape of an RFC 3339 date-time in UTC as chrono writes it.
pub open spec fn rfc3339_utc(s: Seq<char>) -> bool {
    exists|y: int| #[trigger] rfc3339_after_year(s, y)
}

/// Relies on chrono's `Utc::now` and `DateTime::to_rfc3339`: the current
/// time in RFC 3339, with the year, two-digit fields, optional fractional
/// seconds and the UTC offset written `+00:00`. The value itself is not
/// promised.
#[verifier::external_body]
fn now_rfc3339() -> (r: String)
    ensures
        rfc3339_utc(r@),
{
    chrono::Utc::now().to_rfc3339()
}

impl DockerImage {
    /// Decides which layers `layer_spec` selects: a count of newest layers,
    /// or else a prefix of the first layer's digest.
    pub fn plan_squash(&self, layer_spec: &str) -> (r: Result<SquashPlan, SquashError>)
        ensures
            self.layers@.len() == 0 ==> (r matches Err(SquashError::InvalidInput(m)) && m@
                == no_layers_message()),
            self.layers@.len() > 0 && parsed_count(layer_spec@) is Some ==> ({
                let n = parsed_count(layer_spec@)->0;
                let len = self.layers@.len();
                &&& n > len ==> (r matches Err(SquashError::InvalidInput(m)) && m@
                    == image_too_small_message(n, len))
                &&& n == 0 ==> (r matches Err(SquashError::InvalidInput(m)) && m@ == zero_layers_message())
                &&& 1 <= n <= len ==> (r matches Ok(p) && p.count == n && p.start == len - n && p.matches
                    == 0)
            }),
            self.layers@.len() > 0 && parsed_count(layer_spec@) is None ==> ({
                let len = self.layers@.len();
                let id = layer_spec@;
                &&& id.len() < 8 ==> (r matches Err(SquashError::InvalidInput(m)) && m@ == short_id_message(
                    id.len(),
                ))
                &&& id.len() >= 8 && count_matches(self.layers@, id) == 0 ==> (r matches Err(
                    SquashError::LayerNotFound(m),
                ) && m@ == id)
                &&& id.len() >= 8 && count_matches(self.layers@, id) > 0 ==> (r matches Ok(p)
                    && is_first_match(
                    self.layers@,
                    id,
                    crate::layer::LayerMatch { start: p.start, matches: p.matches },
                ) && p.count == len - p.start)
            }),
    {
        if self.layers.len() == 0 {
            let mut m: Vec<char> = Vec::new();
            push_str(&mut m, "No layers to merge");
            assert(m@ =~= no_layers_message());
            return Err(SquashError::InvalidInput(string_of(m)));
        }
        match parse_count(layer_spec) {
            Some(n) => {
                if n > self.layers.len() {
                    let mut m: Vec<char> = Vec::new();
                    push_str(&mut m, "Cannot merge ");
                    push_decimal(&mut m, n as u64);
                    push_str(&mut m, " layers, image only has ");
                    push_decimal(&mut m, self.layers.len() as u64);
                    push_str(&mut m, " layers");
                    assert(m@ =~= image_too_small_message(n as nat, self.layers@.len()));
                    return Err(SquashError::InvalidInput(string_of(m)));
                }
                let start = select_latest(&self.layers, n)?;
                Ok(SquashPlan { start, count: n, matches: 0 })
            },
            None => {
                let found = select_from_id(&self.layers, layer_spec)?;
                Ok(SquashPlan { start: found.start, count: self.layers.len() - found.start, matches: found.matches })
            },
        }
    }

    /// Rewrites the metadata for a merge of the newest `count` layers into
    /// `merged`, dating the new history entry `created`.
    pub fn record_merge(&mut self, count: usize, merged: LayerInfo, created: String)
        requires
            1 <= count <= old(self).layers@.len(),
            count <= old(self).manifest.layers@.len(),
        ensures
            merge_recorded(*old(self), *final(self), count as nat, merged.digest@),
            final(self).layers@.last() == merged,
            final(self).config.history@.last().created == created,
    {
        let ghost before = *self;
        let digest = copy_text(&merged.digest);
        let n = self.layers.len();
        self.layers.truncate(n - count);
        self.layers.push(merged);
        let kept = self.manifest.layers.len() - count;
        self.manifest.layers.truncate(kept);
        let mut name: Vec<char> = Vec::new();
        push_str(&mut name, "merged_layer.tar");
        assert(name@ =~= merged_layer_name());
        self.manifest.layers.push(string_of(name));
        self.config.rootfs.diff_ids.truncate(kept);
        self.config.rootfs.diff_ids.push(digest);
        let cut = merged_history_count(&self.config.history, count);
        let h = self.config.history.len();
        self.config.history.truncate(h - cut);
        let mut note: Vec<char> = Vec::new();
        push_str(&mut note, "squash: merged ");
        push_decimal(&mut note, count as u64);
        push_str(&mut note, " layers");
        assert(note@ =~= merge_note(count as nat));
        self.config.history.push(HistoryEntry { created, created_by: string_of(note), empty_layer: Some(false) });
        assert(self.config.rootfs.diff_ids@.len() == truncated(before.config.rootfs.diff_ids@, kept as nat).len() + 1);
    }

    /// Rewrites the metadata for a merge of the newest `count` layers into
    /// `merged`, dating the new history entry now.
    pub fn commit_merge(&mut self, count: usize, merged: LayerInfo)
        requires
            1 <= count <= old(self).layers@.len(),
            count <= old(self).manifest.layers@.len(),
        ensures
            merge_recorded(*old(self), *final(self), count as nat, merged.digest@),
            final(self).layers@.last() == merged,
            rfc3339_utc(final(self).config.history@.last().created@),
    {
        let created = now_rfc3339();
        self.record_merge(count, merged, created);
    }
}

proof fn lemma_history_cut(hs: Seq<HistoryEntry>, k: nat)
    requires
        k <= non_empty_count(hs),
    ensures
        merged_history_len(hs, k) <= hs.len(),
        non_empty_count(hs.subrange(0, hs.len() - merged_history_len(hs, k))) == non_empty_count(hs) - k,
    decreases hs.len(),
{
    if hs.len() == 0 || k == 0 {
        assert(hs.subrange(0, hs.len() as int) =~= hs);
    } else {
        let rest = hs.drop_last();
        if is_empty_layer(hs.last()) {
            lemma_history_cut(rest, k);
        } else {
            lemma_history_cut(rest, (k - 1) as nat);
        }
        assert(hs.subrange(0, hs.len() - merged_history_len(hs, k)) =~= rest.subrange(
            0,
            rest.len() - (merged_history_len(hs, k) - 1),
        ));
    }
}

/// A merge of the newest `k` layers keeps the metadata consistent: as many
/// layer paths as diff-ids as history entries that record a layer, and that
/// number goes down by exactly `k - 1`.
pub proof fn lemma_merge_keeps_counts(before: DockerImage, after: DockerImage, k: nat, digest: Seq<char>)
    requires
        consistent(before.manifest, before.config),
        1 <= k <= before.manifest.layers@.len(),
        merge_recorded(before, after, k, digest),
    ensures
        consistent(after.manifest, after.config),
        non_empty_count(after.config.history@) == non_empty_count(before.config.history@) - (k - 1),
{
    let hs = before.config.history@;
    let hs2 = after.config.history@;
    lemma_history_cut(hs, k);
    let cut = hs.len() - merged_history_len(hs, k);
    assert(hs2.drop_last() =~= hs.subrange(0, cut));
}


/// `s` with every occurrence of `pat` removed, found from the left without
/// overlaps, as `str::replace(pat, "")` finds them.
pub open spec fn without(s: Seq<char>, pat: Seq<char>) -> Seq<char>
    decreases s.len(),
{
    if s.len() == 0 || pat.len() == 0 {
        s
    } else if pat.len() <= s.len() && s.subrange(0, pat.len() as int) == pat {
        without(s.subrange(pat.len() as int, s.len() as int), pat)
    } else {
        seq![s[0]] + without(s.drop_first(), pat)
    }
}

/// The digest given to a layer that the config lists no diff-id for.
pub open spec fn synthesized_digest(layer_path: Seq<char>) -> Seq<char> {
    "sha256:"@ + without(without(layer_path, ".tar"@), "/"@)
}

/// `s` with every occurrence of `pat` removed.
fn remove_all(s: &Vec<char>, pat: &Vec<char>) -> (r: Vec<char>)
    ensures
        r@ == without(s@, pat@),
{
    let mut out: Vec<char> = Vec::new();
    if pat.len() == 0 {
        let mut j: usize = 0;
        while j < s.len()
            invariant
                j <= s@.len(),
                out@ == s@.subrange(0, j as int),
            decreases s@.len() - j,
        {
            out.push(s[j]);
            j = j + 1;
            assert(out@ =~= s@.subrange(0, j as int));
        }
        assert(out@ =~= s@);
        return out;
    }
    let mut i: usize = 0;
    assert(s@.subrange(0, s@.len() as int) =~= s@);
    assert(out@ + s@ =~= s@);
    while i < s.len()
        invariant
            pat@.len() > 0,
            i <= s@.len(),
            out@ + without(s@.subrange(i as int, s@.len() as int), pat@) == without(s@, pat@),
        decreases s@.len() - i,
    {
        let ghost rest = s@.subrange(i as int, s@.len() as int);
        if occurs_at(s, i, pat) {
            assert(rest.subrange(0, pat@.len() as int) =~= s@.subrange(i as int, i + pat@.len()));
            assert(rest.subrange(pat@.len() as int, rest.len() as int) =~= s@.subrange(i + pat@.len(), s@.len() as int));
            i = i + pat.len();
        } else {
            assert(rest.subrange(0, pat@.len() as int) =~= s@.subrange(i as int, i + pat@.len())
                || pat@.len() > rest.len());
            assert(rest.drop_first() =~= s@.subrange(i + 1, s@.len() as int));
            out.push(s[i]);
            i = i + 1;
            assert(out@ + without(s@.subrange(i as int, s@.len() as int), pat@) =~= without(s@, pat@));
        }
    }
    assert(s@.subrange(i as int, s@.len() as int) =~= Seq::<char>::empty());
    assert(out@ =~= out@ + Seq::<char>::empty());
    out
}

/// The digest of layer `i` with path `layer_path` inside the archive: the
/// config's diff-id where it lists one, else one made from the path.
pub fn layer_digest_for(diff_ids: &Vec<String>, i: usize, layer_path: &str) -> (r: String)
    ensures
        i < diff_ids@.len() ==> r@ == diff_ids@[i as int]@,
        i >= diff_ids@.len() ==> r@ == synthesized_digest(layer_path@),
{
    if i < diff_ids.len() {
        return copy_text(&diff_ids[i]);
    }
    let path = chars_of(layer_path);
    let no_ext = remove_all(&path, &chars_of(".tar"));
    let flat = remove_all(&no_ext, &chars_of("/"));
    let mut out: Vec<char> = Vec::new();
    push_str(&mut out, "sha256:");
    let ghost head = out@;
    let mut k: usize = 0;
    while k < flat.len()
        invariant
            k <= flat@.len(),
            out@ == head + flat@.subrange(0, k as int),
        decreases flat@.len() - k,
    {
        out.push(flat[k]);
        k = k + 1;
        assert(out@ =~= head + flat@.subrange(0, k as int));
    }
    assert(flat@.subrange(0, flat@.len() as int) =~= flat@);
    string_of(out)
}


impl DockerImage {
    /// The names under which the layer tarballs go into an output archive:
    /// each kept layer under its path in the manifest, the newest one as the
    /// merged layer.
    pub fn archive_layer_names(&self) -> (r: Vec<String>)
        requires
            self.layers@.len() <= self.manifest.layers@.len(),
        ensures
            r@.len() == self.layers@.len(),
            forall|i: int| 0 <= i < r@.len() - 1 ==> (#[trigger] r@[i])@ == self.manifest.layers@[i]@,
            r@.len() > 0 ==> r@.last()@ == merged_layer_name(),
    {
        let n = self.layers.len();
        let mut names: Vec<String> = Vec::new();
        let mut i: usize = 0;
        while i < n
            invariant
                n == self.layers@.len(),
                n <= self.manifest.layers@.len(),
                i <= n,
                names@.len() == i,
                forall|j: int| 0 <= j < i && j < n - 1 ==> (#[trigger] names@[j])@ == self.manifest.layers@[j]@,
                forall|j: int| 0 <= j < i && j == n - 1 ==> (#[trigger] names@[j])@ == merged_layer_name(),
            decreases n - i,
        {
            if i == n - 1 {
                let mut name: Vec<char> = Vec::new();
                push_str(&mut name, "merged_layer.tar");
                assert(name@ =~= merged_layer_name());
                names.push(string_of(name));
            } else {
                names.push(copy_text(&self.manifest.layers[i]));
            }
            i = i + 1;
        }
        names
    }
}


/// Relies on uuid's `Uuid::new_v4` and its `Display`, which writes the
/// 36-character hyphenated form in lowercase hex digits; the value is random.
#[verifier::external_body]
fn random_uuid_text() -> (r: String)
    ensures
        r@.len() == 36,
        forall|i: int| 0 <= i < 36 ==> is_digit(#[trigger] r@[i]) || ('a' <= r@[i] <= 'f') || r@[i] == '-',
{
    uuid::Uuid::new_v4().to_string()
}

/// The temporary tag made from identifier `id`.
pub open spec fn temporary_tag_for(id: Seq<char>) -> Seq<char> {
    "squash-temp-"@ + id.subrange(0, 8) + ":latest"@
}

/// The file name of a merged layer made from identifier `id`.
pub open spec fn merged_file_name_for(id: Seq<char>) -> Seq<char> {
    "merged_layer_"@ + id + ".tar"@
}

/// The temporary tag under which an image is imported before it is tagged
/// as asked: `squash-temp-`, the first eight characters of `id`, `:latest`.
pub fn temporary_tag_from(id: &str) -> (r: String)
    requires
        id@.len() >= 8,
    ensures
        r@ == temporary_tag_for(id@),
{
    let chars = chars_of(id);
    let mut out: Vec<char> = Vec::new();
    push_str(&mut out, "squash-temp-");
    let ghost head = out@;
    let mut k: usize = 0;
    while k < 8
        invariant
            chars@ == id@,
            id@.len() >= 8,
            k <= 8,
            out@ == head + id@.subrange(0, k as int),
        decreases 8 - k,
    {
        out.push(chars[k]);
        k = k + 1;
        assert(out@ =~= head + id@.subrange(0, k as int));
    }
    push_str(&mut out, ":latest");
    assert(out@ =~= temporary_tag_for(id@));
    string_of(out)
}

/// A fresh temporary tag, made from a random identifier.
pub fn temporary_tag() -> (r: String)
    ensures
        exists|id: Seq<char>| id.len() == 36 && r@ == temporary_tag_for(id),
{
    let id = random_uuid_text();
    temporary_tag_from(id.as_str())
}

/// The file name of a merged layer: `merged_layer_`, `id`, `.tar`.
pub fn merged_file_name_from(id: &str) -> (r: String)
    ensures
        r@ == merged_file_name_for(id@),
{
    let mut out: Vec<char> = Vec::new();
    push_str(&mut out, "merged_layer_");
    push_str(&mut out, id);
    push_str(&mut out, ".tar");
    assert(out@ =~= merged_file_name_for(id@));
    string_of(out)
}

/// A fresh file name for a merged layer, so that merges sharing a working
/// directory do not collide.
pub fn merged_file_name() -> (r: String)
    ensures
        exists|id: Seq<char>| id.len() == 36 && r@ == merged_file_name_for(id),
{
    let id = random_uuid_text();
    merged_file_name_from(id.as_str())
}


pub open spec fn no_manifest_message() -> Seq<char> {
    "No manifests found in the archive"@
}

/// The image an archive describes: the first of its manifests, with how many
/// there are (only the first is used).
pub fn first_manifest(manifests: Vec<DockerManifest>) -> (r: Result<(DockerManifest, usize), SquashError>)
    ensures
        manifests@.len() == 0 ==> (r matches Err(SquashError::InvalidInput(m)) && m@ == no_manifest_message()),
        manifests@.len() > 0 ==> (r matches Ok((first, n)) && first == manifests@[0] && n == manifests@.len()),
{
    let n = manifests.len();
    if n == 0 {
        let mut m: Vec<char> = Vec::new();
        push_str(&mut m, "No manifests found in the archive");
        assert(m@ =~= no_manifest_message());
        return Err(SquashError::InvalidInput(string_of(m)));
    }
    let mut all = manifests;
    let first = all.remove(0);
    Ok((first, n))
}

} // verus!
