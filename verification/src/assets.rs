//! Files of a dictionary's package: where a requested path leads, what kind
//! of content it has, and the bounded cache of small files.
//!
//! A requested path is the path of a URI: `/` parts its segments, and no
//! other character does.

use vstd::prelude::*;
use vstd::string::{StrSliceExecFns, StringExecFns};

verus! {

/// Largest file that the cache takes: one mebibyte.
pub const MAX_ASSET_BYTES: usize = 1048576;

/// `c` parts the segments of a path.
pub open spec fn is_separator(c: char) -> bool {
    c == '/'
}

/// The path has the three characters `../` at `i`.
pub open spec fn has_dot_dot_slash(path: Seq<char>, i: int) -> bool {
    &&& 0 <= i
    &&& i + 2 < path.len()
    &&& path[i] == '.'
    &&& path[i + 1] == '.'
    &&& path[i + 2] == '/'
}

/// The segment of the path that begins at `i` is `..`.
pub open spec fn is_parent_segment(path: Seq<char>, i: int) -> bool {
    &&& 0 <= i
    &&& i + 1 < path.len()
    &&& path[i] == '.'
    &&& path[i + 1] == '.'
    &&& (i == 0 || is_separator(path[i - 1]))
    &&& (i + 2 == path.len() || is_separator(path[i + 2]))
}

/// At `i` the path climbs: it has `../` there, or a segment `..` begins
/// there.
pub open spec fn climbs_at(path: Seq<char>, i: int) -> bool {
    has_dot_dot_slash(path, i) || is_parent_segment(path, i)
}

/// The path may climb out of the directory it is joined to: it holds `../`
/// or has a segment `..`. A name that merely ends in two dots, such as `x..`,
/// does not climb.
pub open spec fn climbs(path: Seq<char>) -> bool {
    exists|i: int| climbs_at(path, i)
}

/// A path that does not climb has no segment `..`, so joining it to a
/// directory stays below that directory.
pub proof fn lemma_no_parent_segment(path: Seq<char>, i: int)
    requires
        !climbs(path),
    ensures
        !is_parent_segment(path, i),
{
    if is_parent_segment(path, i) {
        assert(climbs_at(path, i));
    }
}

/// Every path that holds `../` climbs.
pub proof fn lemma_dot_dot_slash_climbs(path: Seq<char>, i: int)
    requires
        has_dot_dot_slash(path, i),
    ensures
        climbs(path),
{
    assert(climbs_at(path, i));
}

/// A path climbs only where it holds `../` or ends in a segment `..`.
pub proof fn lemma_climbs_only_there(path: Seq<char>)
    requires
        climbs(path),
    ensures
        (exists|i: int| has_dot_dot_slash(path, i)) || is_parent_segment(path, path.len() - 2),
{
    let i = choose|i: int| climbs_at(path, i);
    if !has_dot_dot_slash(path, i) {
        assert(is_parent_segment(path, i));
        assert(i + 2 == path.len());
    }
}

/// Says whether a requested path may climb out of the package: whether it
/// holds `../` or has a segment `..`.
pub fn is_traversal(path: &str) -> (found: bool)
    ensures
        found == climbs(path@),
{
    let mut found = false;
    // Dots right before here, two at most.
    let mut dots: u8 = 0;
    // Length of the segment so far where it is made of dots and no longer
    // than two; 3 for any other segment.
    let mut only: u8 = 0;
    for c in it: path.chars()
        invariant
            it.seq() == path@,
            dots <= 2,
            only <= 3,
            dots >= 1 <==> (it.index() >= 1 && path@[it.index() - 1] == '.'),
            dots == 2 <==> (it.index() >= 2 && path@[it.index() - 1] == '.' && path@[it.index()
                - 2] == '.'),
            only == 0 <==> (it.index() == 0 || path@[it.index() - 1] == '/'),
            only == 1 <==> (it.index() >= 1 && path@[it.index() - 1] == '.' && (it.index() == 1
                || path@[it.index() - 2] == '/')),
            only == 2 <==> (it.index() >= 2 && path@[it.index() - 1] == '.' && path@[it.index()
                - 2] == '.' && (it.index() == 2 || path@[it.index() - 3] == '/')),
            found <==> exists|i: int| i + 2 < it.index() && #[trigger] has_dot_dot_slash(path@, i),
    {
        let ghost at = it.index() as int;
        if dots == 2 && c == '/' {
            assert(has_dot_dot_slash(path@, at - 2));
            found = true;
        } else {
            assert(!has_dot_dot_slash(path@, at - 2));
        }
        if c == '.' {
            if dots < 2 {
                dots += 1;
            }
            if only < 3 {
                only += 1;
            }
        } else if c == '/' {
            dots = 0;
            only = 0;
        } else {
            dots = 0;
            only = 3;
        }
    }
    proof {
        let len = path@.len() as int;
        if only == 2 {
            assert(is_parent_segment(path@, len - 2));
            assert(climbs_at(path@, len - 2));
        }
        if found {
            let i = choose|i: int| i + 2 < len && #[trigger] has_dot_dot_slash(path@, i);
            assert(climbs_at(path@, i));
        }
        if climbs(path@) {
            let i = choose|i: int| climbs_at(path@, i);
            if has_dot_dot_slash(path@, i) {
                assert(found);
            } else {
                assert(is_parent_segment(path@, i));
                if i + 2 < len {
                    assert(has_dot_dot_slash(path@, i));
                }
            }
        }
    }
    found || only == 2
}

/// The path begins with `k` separators and no more.
pub open spec fn is_lead(path: Seq<char>, k: int) -> bool {
    &&& 0 <= k <= path.len()
    &&& forall|i: int| 0 <= i < k ==> is_separator(#[trigger] path[i])
    &&& (k == path.len() || !is_separator(path[k]))
}

/// The number of separators that the path begins with.
pub open spec fn lead(path: Seq<char>) -> int {
    choose|k: int| is_lead(path, k)
}

/// The path without the separators it begins with: what is left is joined
/// below a directory and cannot replace it.
pub open spec fn relative(path: Seq<char>) -> Seq<char> {
    path.subrange(lead(path), path.len() as int)
}

/// A path begins with one number of separators.
proof fn lemma_lead_unique(path: Seq<char>, k: int)
    requires
        is_lead(path, k),
    ensures
        lead(path) == k,
{
    let other = lead(path);
    assert(is_lead(path, other));
    if other < k {
        assert(is_separator(path[other]));
    }
    if k < other {
        assert(is_separator(path[k]));
    }
}

/// Every path begins with some number of separators.
proof fn lemma_lead_exists(path: Seq<char>, upto: int)
    requires
        0 <= upto <= path.len(),
        forall|i: int| 0 <= i < upto ==> is_separator(#[trigger] path[i]),
    ensures
        is_lead(path, lead(path)),
    decreases path.len() - upto,
{
    if upto == path.len() || !is_separator(path[upto]) {
        assert(is_lead(path, upto));
    } else {
        lemma_lead_exists(path, upto + 1);
    }
}

/// What is left of a path without the separators it begins with begins with
/// no separator, and does not climb unless the path does.
pub proof fn lemma_relative_stays_below(path: Seq<char>)
    ensures
        relative(path).len() == 0 || !is_separator(relative(path)[0]),
        climbs(relative(path)) ==> climbs(path),
{
    lemma_lead_exists(path, 0);
    let k = lead(path);
    let rest = relative(path);
    if climbs(rest) {
        let i = choose|i: int| climbs_at(rest, i);
        if has_dot_dot_slash(rest, i) {
            assert(has_dot_dot_slash(path, i + k));
        } else {
            assert(is_parent_segment(rest, i));
            if i > 0 {
                assert(rest[i - 1] == path[i + k - 1]);
            } else if k > 0 {
                assert(is_separator(path[k - 1]));
            }
            assert(is_parent_segment(path, i + k));
        }
        assert(climbs_at(path, i + k));
    }
}

/// The requested path without the separators it begins with.
pub fn relative_part(path: &str) -> (rest: &str)
    ensures
        rest@ == relative(path@),
{
    let total = path.unicode_len();
    let mut k: usize = 0;
    let mut leading = true;
    for c in it: path.chars()
        invariant
            it.seq() == path@,
            total == path@.len(),
            k <= it.index(),
            leading ==> k == it.index(),
            forall|i: int| 0 <= i < k ==> is_separator(#[trigger] path@[i]),
            !leading ==> k < path@.len() && !is_separator(path@[k as int]),
    {
        if leading {
            if c == '/' {
                k += 1;
            } else {
                leading = false;
            }
        }
    }
    proof {
        lemma_lead_unique(path@, k as int);
    }
    path.substring_char(k, total)
}

/// The dot at `d` begins the extension of the path: it stands in the last
/// segment, that is behind the last `/`, is the last dot there and not the
/// first character of the segment.
pub open spec fn is_extension_dot(path: Seq<char>, d: int) -> bool {
    &&& 0 < d < path.len()
    &&& path[d] == '.'
    &&& !is_separator(path[d - 1])
    &&& forall|i: int| d < i < path.len() ==> (#[trigger] path[i]) != '.' && !is_separator(path[i])
}

/// The last segment of the path has an extension.
pub open spec fn has_extension(path: Seq<char>) -> bool {
    exists|d: int| is_extension_dot(path, d)
}

/// The extension of the path: what follows the last dot of the last segment;
/// empty where there is none.
///
/// On the name of a file this is the extension that `std::path::Path` gives.
/// It departs from it on a path that names no file: one that ends in `/` or
/// in a segment `.` has no extension here, where the standard path looks at
/// the segment before; and `/` alone parts segments here on every platform.
pub open spec fn extension_of(path: Seq<char>) -> Seq<char> {
    if has_extension(path) {
        path.subrange((choose|d: int| is_extension_dot(path, d)) + 1, path.len() as int)
    } else {
        Seq::empty()
    }
}

/// A path has one extension dot at most.
proof fn lemma_extension_dot_unique(path: Seq<char>, d: int)
    requires
        is_extension_dot(path, d),
    ensures
        has_extension(path),
        (choose|d: int| is_extension_dot(path, d)) == d,
{
    let other = choose|d: int| is_extension_dot(path, d);
    assert(is_extension_dot(path, other));
    if other < d {
        assert(path[d] != '.');
    }
    if d < other {
        assert(path[other] != '.');
    }
}

/// What one more character does to the extension dot of a path.
proof fn lemma_extension_dot_push(path: Seq<char>, c: char, d: int)
    ensures
        is_extension_dot(path.push(c), d) <==> if d == path.len() {
            c == '.' && d > 0 && !is_separator(path[d - 1])
        } else {
            is_extension_dot(path, d) && c != '.' && !is_separator(c)
        },
{
    let longer = path.push(c);
    if d < path.len() {
        if is_extension_dot(longer, d) {
            assert(longer[path.len() as int] == c);
            assert forall|i: int| d < i < path.len() implies (#[trigger] path[i]) != '.'
                && !is_separator(path[i]) by {
                assert(longer[i] == path[i]);
            }
            assert(longer[d] == path[d]);
            assert(longer[d - 1] == path[d - 1]);
        }
        if is_extension_dot(path, d) && c != '.' && !is_separator(c) {
            assert forall|i: int| d < i < longer.len() implies (#[trigger] longer[i]) != '.'
                && !is_separator(longer[i]) by {
                if i < path.len() {
                    assert(longer[i] == path[i]);
                }
            }
        }
    } else if d == path.len() {
        if d > 0 {
            assert(longer[d - 1] == path[d - 1]);
        }
    }
}

/// The extension of a path holds neither a dot nor a separator.
pub proof fn lemma_extension_is_plain(path: Seq<char>, i: int)
    requires
        0 <= i < extension_of(path).len(),
    ensures
        extension_of(path)[i] != '.',
        !is_separator(extension_of(path)[i]),
{
    let d = choose|d: int| is_extension_dot(path, d);
    assert(is_extension_dot(path, d));
    assert(extension_of(path)[i] == path[d + 1 + i]);
}

/// The extension of the requested path: that of the file it names, and none
/// where it ends in `/` or in a segment `.` and so names no file.
pub fn extension(path: &str) -> (ext: &str)
    ensures
        ext@ == extension_of(path@),
{
    let total = path.unicode_len();
    let mut dot: Option<usize> = None;
    let mut index: usize = 0;
    let mut inside = false;
    for c in it: path.chars()
        invariant
            it.seq() == path@,
            total == path@.len(),
            index == it.index(),
            inside <==> (index > 0 && !is_separator(path@[index - 1])),
            match dot {
                Some(d) => is_extension_dot(path@.take(index as int), d as int),
                None => !has_extension(path@.take(index as int)),
            },
    {
        let ghost before = path@.take(index as int);
        let ghost now = path@.take(index + 1);
        proof {
            assert(now == before.push(c));
            if index > 0 {
                assert(before[index - 1] == path@[index - 1]);
            }
        }
        if c == '.' && inside {
            proof {
                lemma_extension_dot_push(before, c, index as int);
            }
            dot = Some(index);
        } else if c == '.' || c == '/' {
            assert forall|d: int| !is_extension_dot(now, d) by {
                lemma_extension_dot_push(before, c, d);
            }
            dot = None;
        } else {
            proof {
                match dot {
                    Some(d) => {
                        lemma_extension_dot_push(before, c, d as int);
                    },
                    None => {
                        assert forall|d: int| !is_extension_dot(now, d) by {
                            lemma_extension_dot_push(before, c, d);
                        }
                    },
                }
            }
        }
        inside = c != '/';
        index += 1;
    }
    assert(path@.take(index as int) == path@);
    match dot {
        Some(d) => {
            proof {
                lemma_extension_dot_unique(path@, d as int);
            }
            path.substring_char(d + 1, total)
        },
        None => {
            let ext = "";
            proof {
                reveal_strlit("");
            }
            assert(ext@ =~= Seq::<char>::empty());
            ext
        },
    }
}

/// The media type that the table of `mime_guess` gives first for an
/// extension, or `application/octet-stream` where the table has none.
pub uninterp spec fn guessed_media_type(extension: Seq<char>) -> Seq<char>;

/// Calls `mime_guess::from_ext` and takes `first_or_octet_stream` of the
/// guess, as text. The guess is looked up in a table that is fixed when the
/// crate is built, without regard to case, so it depends on the extension
/// alone; for the empty extension the guess is empty, and the media type is
/// `application/octet-stream`.
#[verifier::external_body]
fn media_type(extension: &str) -> (media: String)
    ensures
        media@ == guessed_media_type(extension@),
        extension@.len() == 0 ==> media@ == "application/octet-stream"@,
{
    mime_guess::from_ext(extension).first_or_octet_stream().to_string()
}

/// The content type under which a file of this path is served: the media
/// type guessed for its extension.
pub fn content_type(path: &str) -> (media: String)
    ensures
        media@ == guessed_media_type(extension_of(path@)),
        !has_extension(path@) ==> media@ == "application/octet-stream"@,
{
    media_type(extension(path))
}

/// The directory of the package `name`, which lies below `dict_dir`.
pub open spec fn package_root(dict_dir: Seq<char>, name: Seq<char>) -> Seq<char> {
    dict_dir + "/"@ + name
}

/// Where a requested path leads: below the directory of the package `name`.
pub open spec fn joined(dict_dir: Seq<char>, name: Seq<char>, path: Seq<char>) -> Seq<char> {
    package_root(dict_dir, name) + "/"@ + relative(path)
}

/// The directory of a package.
pub fn package_dir(dict_dir: &str, name: &str) -> (root: String)
    ensures
        root@ == package_root(dict_dir@, name@),
{
    let mut root = dict_dir.to_owned();
    root.append("/");
    root.append(name);
    root
}

/// Joins a requested path to the directory of a package.
pub fn file_path(dict_dir: &str, name: &str, path: &str) -> (file: String)
    ensures
        file@ == joined(dict_dir@, name@, path@),
{
    let mut file = package_dir(dict_dir, name);
    file.append("/");
    file.append(relative_part(path));
    file
}

/// What a cached file says, with the path as a sequence of characters.
pub struct AssetView {
    pub file: Seq<char>,
    pub content: Seq<u8>,
}

/// A cached file: its path and its content.
pub struct Asset {
    pub file: String,
    pub content: Vec<u8>,
}

impl View for Asset {
    type V = AssetView;

    open spec fn view(&self) -> AssetView {
        AssetView { file: self.file@, content: self.content@ }
    }
}

/// The files of a cache, each by its view.
pub open spec fn assets_view(assets: Seq<Asset>) -> Seq<AssetView> {
    assets.map_values(|asset: Asset| asset@)
}

/// The cache holds a file of this path.
pub open spec fn holds(assets: Seq<AssetView>, file: Seq<char>) -> bool {
    exists|i: int| 0 <= i < assets.len() && (#[trigger] assets[i]).file == file
}

/// Where the cache holds the file of this path.
pub open spec fn place(assets: Seq<AssetView>, file: Seq<char>) -> int {
    choose|i: int| 0 <= i < assets.len() && (#[trigger] assets[i]).file == file
}

/// The content that the cache holds for this path, if any.
pub open spec fn cached(assets: Seq<AssetView>, file: Seq<char>) -> Option<Seq<u8>> {
    if holds(assets, file) {
        Some(assets[place(assets, file)].content)
    } else {
        None
    }
}

/// The content is small enough for the cache.
pub open spec fn fits(content: Seq<u8>) -> bool {
    content.len() <= MAX_ASSET_BYTES
}

/// No two files of the cache have one path.
pub open spec fn distinct_files(assets: Seq<AssetView>) -> bool {
    forall|i: int, j: int|
        0 <= i < j < assets.len() ==> (#[trigger] assets[i]).file != (#[trigger] assets[j]).file
}

/// The files of a cache of this capacity after a file is offered to it. A
/// file that does not fit is not taken. A file whose path the cache holds
/// replaces the content held. Any other file is appended, and where the cache
/// is full the oldest file leaves first.
pub open spec fn stored(
    assets: Seq<AssetView>,
    capacity: nat,
    file: Seq<char>,
    content: Seq<u8>,
) -> Seq<AssetView> {
    if !fits(content) || capacity == 0 {
        assets
    } else if holds(assets, file) {
        assets.update(place(assets, file), AssetView { file, content })
    } else if assets.len() < capacity {
        assets.push(AssetView { file, content })
    } else {
        assets.drop_first().push(AssetView { file, content })
    }
}

/// A cache as a value: its files, oldest first, and how many it may hold.
pub struct AssetCacheView {
    pub assets: Seq<AssetView>,
    pub capacity: nat,
}

impl AssetCacheView {
    /// The invariant of the cache: it holds no more files than it may, no
    /// path twice and no file that does not fit.
    pub open spec fn wf(self) -> bool {
        &&& self.assets.len() <= self.capacity
        &&& distinct_files(self.assets)
        &&& forall|i: int| 0 <= i < self.assets.len() ==> fits((#[trigger] self.assets[i]).content)
    }
}

/// The bounded cache of small files, oldest first.
pub struct AssetCache {
    assets: Vec<Asset>,
    capacity: usize,
}

impl View for AssetCache {
    type V = AssetCacheView;

    closed spec fn view(&self) -> AssetCacheView {
        AssetCacheView { assets: assets_view(self.assets@), capacity: self.capacity as nat }
    }
}

/// In a cache without a path twice, a file is held where its path is found.
proof fn lemma_place_unique(assets: Seq<AssetView>, file: Seq<char>, i: int)
    requires
        distinct_files(assets),
        0 <= i < assets.len(),
        assets[i].file == file,
    ensures
        holds(assets, file),
        place(assets, file) == i,
{
    let at = place(assets, file);
    if at < i {
        assert(assets[at].file != assets[i].file);
    }
    if i < at {
        assert(assets[i].file != assets[at].file);
    }
}

impl AssetCache {
    /// The invariant of the cache holds.
    pub open spec fn wf(&self) -> bool {
        self@.wf()
    }

    /// An empty cache that may hold `capacity` files.
    pub fn new(capacity: usize) -> (cache: Self)
        ensures
            cache.wf(),
            cache@.assets == Seq::<AssetView>::empty(),
            cache@.capacity == capacity,
    {
        let cache = AssetCache { assets: Vec::new(), capacity };
        assert(cache@.assets =~= Seq::<AssetView>::empty());
        cache
    }

    /// Where the cache holds the file of this path, if it does.
    fn find(&self, file: &String) -> (at: Option<usize>)
        requires
            self.wf(),
        ensures
            match at {
                Some(i) => i < self.assets.len() && holds(self@.assets, file@) && place(
                    self@.assets,
                    file@,
                ) == i,
                None => !holds(self@.assets, file@),
            },
    {
        let ghost assets = self@.assets;
        let mut i: usize = 0;
        while i < self.assets.len()
            invariant
                i <= self.assets.len(),
                assets == assets_view(self.assets@),
                distinct_files(assets),
                forall|k: int| 0 <= k < i ==> (#[trigger] assets[k]).file != file@,
            decreases self.assets.len() - i,
        {
            if self.assets[i].file == *file {
                proof {
                    lemma_place_unique(assets, file@, i as int);
                }
                return Some(i);
            }
            i += 1;
        }
        None
    }

    /// The content that the cache holds for this path, if any.
    pub fn get(&self, file: &str) -> (content: Option<&Vec<u8>>)
        requires
            self.wf(),
        ensures
            match content {
                Some(bytes) => cached(self@.assets, file@) == Some(bytes@),
                None => cached(self@.assets, file@) is None,
            },
    {
        let wanted = file.to_owned();
        match self.find(&wanted) {
            Some(i) => Some(&self.assets[i].content),
            None => None,
        }
    }

    /// Offers a file to the cache; says whether the cache took it.
    pub fn insert(&mut self, file: String, content: Vec<u8>) -> (taken: bool)
        requires
            old(self).wf(),
        ensures
            final(self).wf(),
            final(self)@.capacity == old(self)@.capacity,
            final(self)@.assets == stored(old(self)@.assets, old(self)@.capacity, file@, content@),
            taken == (fits(content@) && old(self)@.capacity > 0),
    {
        if content.len() > MAX_ASSET_BYTES || self.capacity == 0 {
            return false;
        }
        let ghost before = self@.assets;
        let ghost entry = AssetView { file: file@, content: content@ };
        proof {
            lemma_stored_wf(self@, file@, content@);
        }
        match self.find(&file) {
            Some(i) => {
                self.assets.set(i, Asset { file, content });
                assert(self@.assets =~= before.update(i as int, entry));
            },
            None => {
                if self.assets.len() >= self.capacity {
                    self.assets.remove(0);
                    assert(assets_view(self.assets@) =~= before.drop_first());
                }
                self.assets.push(Asset { file, content });
                assert(self@.assets =~= stored(before, self.capacity as nat, entry.file, entry.content));
            },
        }
        true
    }
}

/// Offering a file keeps the invariant of the cache: the cache stays within
/// its capacity, holds no path twice and no file that does not fit.
pub proof fn lemma_stored_wf(cache: AssetCacheView, file: Seq<char>, content: Seq<u8>)
    requires
        cache.wf(),
    ensures
        (AssetCacheView {
            assets: stored(cache.assets, cache.capacity, file, content),
            capacity: cache.capacity,
        }).wf(),
{
    let assets = cache.assets;
    let after = stored(assets, cache.capacity, file, content);
    if !fits(content) || cache.capacity == 0 {
    } else if holds(assets, file) {
        assert forall|i: int, j: int| 0 <= i < j < after.len() implies (#[trigger] after[i]).file != (
        #[trigger] after[j]).file by {
            assert(after[i].file == assets[i].file);
            assert(after[j].file == assets[j].file);
        }
    } else if assets.len() < cache.capacity {
        assert forall|i: int, j: int| 0 <= i < j < after.len() implies (#[trigger] after[i]).file != (
        #[trigger] after[j]).file by {
            if j < assets.len() {
                assert(after[i] == assets[i] && after[j] == assets[j]);
            } else {
                assert(after[i] == assets[i]);
            }
        }
    } else {
        let rest = assets.drop_first();
        assert forall|i: int, j: int| 0 <= i < j < after.len() implies (#[trigger] after[i]).file != (
        #[trigger] after[j]).file by {
            assert(after[i] == assets[i + 1]);
            if j < rest.len() {
                assert(after[j] == assets[j + 1]);
            }
        }
        assert forall|i: int| 0 <= i < after.len() implies fits((#[trigger] after[i]).content) by {
            if i < rest.len() {
                assert(after[i] == assets[i + 1]);
            }
        }
    }
}

/// What the cache takes it gives back: after a file that fits is offered to a
/// cache that may hold a file, the cache holds that content for that path.
pub proof fn lemma_stored_is_cached(cache: AssetCacheView, file: Seq<char>, content: Seq<u8>)
    requires
        cache.wf(),
        fits(content),
        cache.capacity > 0,
    ensures
        cached(stored(cache.assets, cache.capacity, file, content), file) == Some(content),
{
    let assets = cache.assets;
    let after = stored(assets, cache.capacity, file, content);
    lemma_stored_wf(cache, file, content);
    if holds(assets, file) {
        let at = place(assets, file);
        lemma_place_unique(after, file, at);
    } else {
        lemma_place_unique(after, file, after.len() - 1);
    }
}

/// The cache never gives stale content: for any other path, offering a file
/// leaves what the cache holds as it was, or the cache forgets that path
/// because it was full and that file was its oldest.
pub proof fn lemma_stored_keeps_others(
    cache: AssetCacheView,
    file: Seq<char>,
    content: Seq<u8>,
    other: Seq<char>,
)
    requires
        cache.wf(),
        other != file,
    ensures
        cached(stored(cache.assets, cache.capacity, file, content), other) == cached(
            cache.assets,
            other,
        ) || (cached(stored(cache.assets, cache.capacity, file, content), other) is None
            && cache.assets.len() == cache.capacity && cache.assets.len() > 0
            && cache.assets[0].file == other),
{
    let assets = cache.assets;
    let after = stored(assets, cache.capacity, file, content);
    lemma_stored_wf(cache, file, content);
    if !fits(content) || cache.capacity == 0 {
    } else if holds(assets, file) {
        if holds(assets, other) {
            let i = place(assets, other);
            assert(after[i] == assets[i]);
            lemma_place_unique(after, other, i);
        } else if holds(after, other) {
            let i = place(after, other);
            assert(assets[i].file == other);
        }
    } else if assets.len() < cache.capacity {
        if holds(assets, other) {
            let i = place(assets, other);
            assert(after[i] == assets[i]);
            lemma_place_unique(after, other, i);
        } else if holds(after, other) {
            let i = place(after, other);
            assert(assets[i].file == other);
        }
    } else {
        if holds(after, other) {
            let i = place(after, other);
            assert(after[i] == assets[i + 1]);
            lemma_place_unique(assets, other, i + 1);
        } else if holds(assets, other) {
            let i = place(assets, other);
            if i > 0 {
                assert(after[i - 1] == assets[i]);
            }
        }
    }
}

} // verus!
