//! The recordings in a directory: listing and pairing, names, and what renaming
//! and deleting one involves.
//!
//! A corrected version lies beside its recording under the recording's name
//! with a suffix, and is listed under it.
use crate::paths;
use crate::single::{self, Bits};
use crate::text;
use vstd::prelude::*;

verus! {

/// What the name of a corrected version has before its extension.
pub const CORRECTED_SUFFIX: &'static str = "-corrected";

/// The same, with the extension.
pub const CORRECTED_ENDING: &'static str = "-corrected.wav";

/// The longest name, in bytes and without its extension.
pub const MAX_NAME_BYTES: usize = 120;

/// What can be wrong with a request.
#[derive(Clone, Copy, PartialEq, Eq, Structural, Debug)]
pub enum TakeError {
    /// The directory cannot be used.
    NoDirectory,
    /// The file does not exist.
    NoFile,
    /// The file does not lie in the directory.
    Outside,
    /// It is no WAV file.
    NotWav,
    /// The name is empty.
    EmptyName,
    /// The name is too long.
    NameTooLong,
    /// The name holds this character.
    BadCharacter(char),
    /// Windows does not take the name.
    ReservedName,
    /// There is a recording of that name.
    NameTaken,
    /// The recycler gave this code back.
    RecyclerFailed(i32),
    /// Deleting was broken off.
    Aborted,
}

impl TakeError {
    /// What is told of the error, about the file or directory at `path`.
    pub open spec fn told(&self, path: Seq<char>) -> Seq<char> {
        match *self {
            TakeError::NoDirectory => "录音目录不可用："@ + path,
            TakeError::NoFile => "文件不存在："@ + path,
            TakeError::Outside => "这个文件不在录音目录里，拒绝操作："@ + path,
            TakeError::NotWav => "只处理 .wav 文件"@,
            TakeError::EmptyName => "名字不能为空"@,
            TakeError::NameTooLong => "名字太长了（最多 120 字节）"@,
            TakeError::BadCharacter(c) => "名字里不能有 "@ + text::quoted(c),
            TakeError::ReservedName => "Windows 不接受这个名字"@,
            TakeError::NameTaken => "已经有一条录音叫这个名字了"@,
            TakeError::RecyclerFailed(rc) => "移进回收站失败（SHFileOperation 返回 "@
                + text::signed_decimal(rc as int) + "）—— 可以在资源管理器里手动删除"@,
            TakeError::Aborted => "删除被中断"@,
        }
    }

    /// What is told of the error, about the file or directory at `path`.
    pub fn message(&self, path: &str) -> (s: String)
        ensures
            s@ == self.told(path@),
    {
        match *self {
            TakeError::NoDirectory => {
                let mut s: String = "录音目录不可用：".to_owned();
                text::push_text(&mut s, path);
                s
            },
            TakeError::NoFile => {
                let mut s: String = "文件不存在：".to_owned();
                text::push_text(&mut s, path);
                s
            },
            TakeError::Outside => {
                let mut s: String = "这个文件不在录音目录里，拒绝操作：".to_owned();
                text::push_text(&mut s, path);
                s
            },
            TakeError::NotWav => "只处理 .wav 文件".to_owned(),
            TakeError::EmptyName => "名字不能为空".to_owned(),
            TakeError::NameTooLong => "名字太长了（最多 120 字节）".to_owned(),
            TakeError::BadCharacter(c) => {
                let mut s: String = "名字里不能有 ".to_owned();
                text::push_quoted(&mut s, c);
                s
            },
            TakeError::ReservedName => "Windows 不接受这个名字".to_owned(),
            TakeError::NameTaken => "已经有一条录音叫这个名字了".to_owned(),
            TakeError::RecyclerFailed(rc) => {
                let mut s: String = "移进回收站失败（SHFileOperation 返回 ".to_owned();
                text::push_signed(&mut s, rc);
                text::push_text(&mut s, "）—— 可以在资源管理器里手动删除");
                s
            },
            TakeError::Aborted => "删除被中断".to_owned(),
        }
    }
}

/// One entry of a directory listing.
pub struct Entry {
    pub name: String,
    pub is_file: bool,
    pub seconds: Bits,
    pub bytes: u64,
    /// Time of the last change, in seconds; zero where it is not known.
    pub modified: u64,
}

/// A recording. Files are given by their places in the listing.
pub struct Take {
    pub name: String,
    pub file: usize,
    pub seconds: Bits,
    pub bytes: u64,
    pub modified: u64,
    pub corrected: Option<usize>,
    pub corrected_seconds: Bits,
    pub corrected_bytes: u64,
}

/// Is this the name of a WAV file?
pub open spec fn names_wav(name: Seq<char>) -> bool {
    paths::extension(name) matches Some(x) && text::lowered(x) == "wav"@
}

/// Does a stem belong to a corrected version?
pub open spec fn corrected_stem(stem: Seq<char>) -> bool {
    CORRECTED_SUFFIX@.is_suffix_of(stem)
}

/// The stem of the recording that a corrected version belongs to.
pub open spec fn source_stem(stem: Seq<char>) -> Seq<char> {
    stem.take(stem.len() - CORRECTED_SUFFIX@.len())
}

/// Is this the name of a WAV file?
pub fn is_wav(name: &str) -> (r: bool)
    ensures
        r == names_wav(name@),
{
    let chars: Vec<char> = text::chars_of(name);
    assert(chars@.subrange(0, chars@.len() as int) =~= name@);
    let d: usize = paths::stem_end(&chars, 0, chars.len());
    d < chars.len() && text::spells(&chars, d + 1, chars.len(), "wav")
}

/// Does a stem belong to a corrected version?
pub fn is_corrected_stem(stem: &str) -> (r: bool)
    ensures
        r == corrected_stem(stem@),
{
    let chars: Vec<char> = text::chars_of(stem);
    assert(chars@.subrange(0, chars@.len() as int) =~= stem@);
    text::ends_with(&chars, 0, chars.len(), CORRECTED_SUFFIX)
}

/// Does the listing's entry count as a plain recording?
pub open spec fn plain_entry(e: Entry) -> bool {
    e.is_file && names_wav(e.name@) && !corrected_stem(paths::stem(e.name@))
}

/// Does the listing's entry count as a corrected version?
pub open spec fn corrected_entry(e: Entry) -> bool {
    e.is_file && names_wav(e.name@) && corrected_stem(paths::stem(e.name@))
}

/// Entry `i` is the corrected version for recordings of this stem: of several
/// the last.
pub open spec fn partner_at(entries: Seq<Entry>, stem: Seq<char>, i: int) -> bool {
    &&& 0 <= i < entries.len()
    &&& corrected_entry(entries[i])
    &&& source_stem(paths::stem(entries[i].name@)) == stem
    &&& forall|j: int|
        i < j < entries.len() && corrected_entry(#[trigger] entries[j]) ==> source_stem(
            paths::stem(entries[j].name@),
        ) != stem
}

/// Is there a plain recording of this stem among the first `n` entries?
pub open spec fn has_plain(entries: Seq<Entry>, stem: Seq<char>, n: int) -> bool {
    exists|j: int|
        0 <= j < n && plain_entry(#[trigger] entries[j]) && paths::stem(entries[j].name@) == stem
}

/// Is there a corrected version for this stem?
pub open spec fn has_partner(entries: Seq<Entry>, stem: Seq<char>) -> bool {
    exists|i: int| partner_at(entries, stem, i)
}

/// The corrected version for this stem.
pub open spec fn partner(entries: Seq<Entry>, stem: Seq<char>) -> int {
    choose|i: int| partner_at(entries, stem, i)
}

/// What a listing shows for entry `i`, with or without a corrected version.
pub open spec fn listed(entries: Seq<Entry>, i: int, corrected: Option<int>) -> Take {
    Take {
        name: entries[i].name,
        file: i as usize,
        seconds: entries[i].seconds,
        bytes: entries[i].bytes,
        modified: entries[i].modified,
        corrected: match corrected {
            Some(c) => Some(c as usize),
            None => None,
        },
        corrected_seconds: match corrected {
            Some(c) => entries[c].seconds,
            None => single::ZERO,
        },
        corrected_bytes: match corrected {
            Some(c) => entries[c].bytes,
            None => 0,
        },
    }
}

/// The corrected version that goes with the plain recording at `i`: the one for
/// its stem, where no earlier recording of the same stem has it.
pub open spec fn paired(entries: Seq<Entry>, i: int) -> Option<int> {
    let stem = paths::stem(entries[i].name@);
    if has_partner(entries, stem) && !has_plain(entries, stem, i) {
        Some(partner(entries, stem))
    } else {
        None
    }
}

/// Is entry `i` a corrected version whose recording is gone? Of several for one
/// stem only the last counts.
pub open spec fn orphan(entries: Seq<Entry>, i: int) -> bool {
    let stem = source_stem(paths::stem(entries[i].name@));
    corrected_entry(entries[i]) && partner_at(entries, stem, i) && !has_plain(
        entries,
        stem,
        entries.len() as int,
    )
}

/// What the first `n` entries bring to the listing, in their order: every plain
/// recording with its corrected version, and every corrected version whose
/// recording is gone.
pub open spec fn shown(entries: Seq<Entry>, n: int) -> Seq<Take>
    decreases n,
{
    if n <= 0 {
        Seq::empty()
    } else {
        let before = shown(entries, n - 1);
        if plain_entry(entries[n - 1]) {
            before.push(listed(entries, n - 1, paired(entries, n - 1)))
        } else if orphan(entries, n - 1) {
            before.push(listed(entries, n - 1, None))
        } else {
            before
        }
    }
}

/// Does `a` come before `b` in the listing? The newer does; of equally new ones
/// the one whose name comes first.
pub open spec fn comes_before(a: Take, b: Take) -> bool {
    a.modified > b.modified || (a.modified == b.modified && text::text_before(a.name@, b.name@))
}

/// Is the listing in order: does nothing come before what stands before it?
pub open spec fn in_listing_order(takes: Seq<Take>) -> bool {
    forall|i: int, j: int| 0 <= i < j < takes.len() ==> !comes_before(takes[j], takes[i])
}

/// What an entry counts as.
#[derive(Clone, Copy, PartialEq, Eq, Structural, Debug)]
enum Kind {
    Other,
    Plain,
    Corrected,
}

/// An entry sorted out: what it counts as, and the stem of the recording that
/// it is or belongs to.
struct Sorted {
    kind: Kind,
    stem: Vec<char>,
}

spec fn sorted_out(e: Entry, s: Sorted) -> bool {
    &&& (s.kind == Kind::Plain) == plain_entry(e)
    &&& (s.kind == Kind::Corrected) == corrected_entry(e)
    &&& s.kind == Kind::Plain ==> s.stem@ == paths::stem(e.name@)
    &&& s.kind == Kind::Corrected ==> s.stem@ == source_stem(paths::stem(e.name@))
}

spec fn all_sorted_out(entries: Seq<Entry>, v: Seq<Sorted>) -> bool {
    &&& v.len() == entries.len()
    &&& forall|i: int| 0 <= i < v.len() ==> sorted_out(entries[i], #[trigger] v[i])
}

fn copy_of(chars: &[char], to: usize) -> (v: Vec<char>)
    requires
        to <= chars@.len(),
    ensures
        v@ == chars@.take(to as int),
{
    let mut v: Vec<char> = Vec::new();
    let mut i: usize = 0;
    while i < to
        invariant
            i <= to <= chars@.len(),
            v@ == chars@.take(i as int),
        decreases to - i,
    {
        v.push(chars[i]);
        i = i + 1;
        assert(v@ =~= chars@.take(i as int));
    }
    v
}

fn sort_out(e: &Entry) -> (s: Sorted)
    ensures
        sorted_out(*e, s),
{
    if !e.is_file || !is_wav(e.name.as_str()) {
        return Sorted { kind: Kind::Other, stem: Vec::new() };
    }
    let chars: Vec<char> = text::chars_of(e.name.as_str());
    let d: usize = paths::stem_end(&chars, 0, chars.len());
    assert(chars@.subrange(0, chars@.len() as int) =~= e.name@);
    let ghost stem = paths::stem(e.name@);
    assert(stem =~= chars@.subrange(0, d as int));
    if text::ends_with(&chars, 0, d, CORRECTED_SUFFIX) {
        let suffix: Vec<char> = text::chars_of(CORRECTED_SUFFIX);
        let v: Vec<char> = copy_of(&chars, d - suffix.len());
        assert(v@ =~= source_stem(stem));
        Sorted { kind: Kind::Corrected, stem: v }
    } else {
        let v: Vec<char> = copy_of(&chars, d);
        assert(v@ =~= stem);
        Sorted { kind: Kind::Plain, stem: v }
    }
}

fn same_text(a: &[char], b: &[char]) -> (r: bool)
    ensures
        r == (a@ == b@),
{
    if a.len() != b.len() {
        return false;
    }
    let mut i: usize = 0;
    while i < a.len()
        invariant
            a@.len() == b@.len(),
            i <= a@.len(),
            forall|j: int| 0 <= j < i ==> a@[j] == b@[j],
        decreases a@.len() - i,
    {
        if a[i] != b[i] {
            return false;
        }
        i = i + 1;
    }
    assert(a@ =~= b@);
    true
}

proof fn lemma_partner_unique(entries: Seq<Entry>, stem: Seq<char>, i: int, j: int)
    requires
        partner_at(entries, stem, i),
        partner_at(entries, stem, j),
    ensures
        i == j,
{
    if i < j {
        assert(corrected_entry(entries[j]));
    }
    if j < i {
        assert(corrected_entry(entries[i]));
    }
}

fn find_partner(v: &Vec<Sorted>, stem: &[char], Ghost(entries): Ghost<Seq<Entry>>) -> (r: Option<
    usize,
>)
    requires
        all_sorted_out(entries, v@),
    ensures
        r is Some <==> has_partner(entries, stem@),
        r matches Some(i) ==> partner_at(entries, stem@, i as int) && i == partner(entries, stem@),
{
    let mut n: usize = v.len();
    while n > 0
        invariant
            n <= v@.len(),
            all_sorted_out(entries, v@),
            forall|j: int|
                n <= j < entries.len() && corrected_entry(#[trigger] entries[j]) ==> source_stem(
                    paths::stem(entries[j].name@),
                ) != stem@,
        decreases n,
    {
        assert(sorted_out(entries[n - 1], v@[n - 1]));
        if v[n - 1].kind == Kind::Corrected && same_text(&v[n - 1].stem, stem) {
            proof {
                assert(partner_at(entries, stem@, n - 1));
                lemma_partner_unique(entries, stem@, n - 1, partner(entries, stem@));
            }
            return Some(n - 1);
        }
        n = n - 1;
    }
    proof {
        if has_partner(entries, stem@) {
            let i = choose|i: int| partner_at(entries, stem@, i);
            assert(corrected_entry(entries[i]));
            assert(false);
        }
    }
    None
}

fn plain_before(v: &Vec<Sorted>, stem: &[char], n: usize, Ghost(entries): Ghost<Seq<Entry>>) -> (r:
    bool)
    requires
        all_sorted_out(entries, v@),
        n <= v@.len(),
    ensures
        r == has_plain(entries, stem@, n as int),
{
    let mut i: usize = 0;
    while i < n
        invariant
            i <= n <= v@.len(),
            all_sorted_out(entries, v@),
            forall|j: int|
                0 <= j < i && plain_entry(#[trigger] entries[j]) ==> paths::stem(entries[j].name@)
                    != stem@,
        decreases n - i,
    {
        assert(sorted_out(entries[i as int], v@[i as int]));
        if v[i].kind == Kind::Plain && same_text(&v[i].stem, stem) {
            assert(plain_entry(entries[i as int]));
            return true;
        }
        i = i + 1;
    }
    false
}

proof fn lemma_text_before_irreflexive(a: Seq<char>)
    ensures
        !text::text_before(a, a),
    decreases a.len(),
{
    if a.len() > 0 {
        lemma_text_before_irreflexive(a.drop_first());
    }
}

proof fn lemma_text_before_transitive(a: Seq<char>, b: Seq<char>, c: Seq<char>)
    requires
        text::text_before(a, b),
        text::text_before(b, c),
    ensures
        text::text_before(a, c),
    decreases a.len(),
{
    if a.len() > 0 && b.len() > 0 && c.len() > 0 && a[0] == b[0] && b[0] == c[0] {
        lemma_text_before_transitive(a.drop_first(), b.drop_first(), c.drop_first());
    }
}

/// The order of the listing is a strict one: nothing comes before itself, and
/// what comes before something comes before what that comes before.
pub proof fn the_listing_order_is_strict(a: Take, b: Take, c: Take)
    ensures
        !comes_before(a, a),
        comes_before(a, b) && comes_before(b, c) ==> comes_before(a, c),
{
    lemma_text_before_irreflexive(a.name@);
    if comes_before(a, b) && comes_before(b, c) && a.modified == b.modified && b.modified
        == c.modified {
        lemma_text_before_transitive(a.name@, b.name@, c.name@);
    }
}

fn is_first(a: &Take, b: &Take) -> (r: bool)
    ensures
        r == comes_before(*a, *b),
{
    if a.modified > b.modified {
        true
    } else if a.modified == b.modified {
        let x: Vec<char> = text::chars_of(a.name.as_str());
        let y: Vec<char> = text::chars_of(b.name.as_str());
        text::is_before(&x, &y)
    } else {
        false
    }
}

/// Puts a recording into the listing at its place, behind its equals.
fn put_in_order(out: &mut Vec<Take>, t: Take)
    requires
        in_listing_order(old(out)@),
    ensures
        in_listing_order(final(out)@),
        final(out)@.to_multiset() == old(out)@.to_multiset().insert(t),
{
    let mut p: usize = 0;
    while p < out.len() && !is_first(&t, &out[p])
        invariant
            p <= out@.len(),
            out@ == old(out)@,
            forall|i: int| 0 <= i < p ==> !comes_before(t, #[trigger] out@[i]),
        decreases out@.len() - p,
    {
        p = p + 1;
    }
    proof {
        if p < out@.len() {
            assert forall|j: int| p <= j < out@.len() implies !comes_before(out@[j], t) by {
                the_listing_order_is_strict(out@[j], t, out@[p as int]);
                the_listing_order_is_strict(t, out@[j], t);
            }
        }
    }
    let ghost before = out@;
    out.insert(p, t);
    proof {
        let after = out@;
        assert(after[p as int] == t);
        assert(after.remove(p as int) =~= before);
        broadcast use vstd::seq_lib::group_to_multiset_ensures;

        assert(after.remove(p as int).to_multiset() == after.to_multiset().remove(t));
        assert(after.contains(t));
        assert(after.to_multiset().count(t) > 0);
        assert(after.to_multiset() =~= before.to_multiset().insert(t));
        assert forall|i: int, j: int| 0 <= i < j < after.len() implies !comes_before(
            after[j],
            after[i],
        ) by {
            if j < p {
                assert(after[i] == before[i] && after[j] == before[j]);
            } else if j == p {
                assert(after[i] == before[i]);
            } else if i < p {
                assert(after[i] == before[i] && after[j] == before[j - 1]);
            } else if i == p {
                assert(after[j] == before[j - 1]);
            } else {
                assert(after[i] == before[i - 1] && after[j] == before[j - 1]);
            }
        }
    }
}

/// Lists the recordings of a directory: the newest first, each with its
/// corrected version, and corrected versions whose recording is gone on their
/// own.
pub fn scan(entries: &Vec<Entry>) -> (out: Vec<Take>)
    ensures
        in_listing_order(out@),
        out@.to_multiset() == shown(entries@, entries@.len() as int).to_multiset(),
{
    let mut v: Vec<Sorted> = Vec::new();
    let mut k: usize = 0;
    while k < entries.len()
        invariant
            k <= entries@.len(),
            v@.len() == k,
            forall|i: int| 0 <= i < k ==> sorted_out(entries@[i], #[trigger] v@[i]),
        decreases entries@.len() - k,
    {
        v.push(sort_out(&entries[k]));
        k = k + 1;
    }
    let mut out: Vec<Take> = Vec::new();
    let mut i: usize = 0;
    while i < entries.len()
        invariant
            i <= entries@.len(),
            all_sorted_out(entries@, v@),
            in_listing_order(out@),
            out@.to_multiset() == shown(entries@, i as int).to_multiset(),
        decreases entries@.len() - i,
    {
        let e: &Entry = &entries[i];
        assert(sorted_out(entries@[i as int], v@[i as int]));
        let stem: &Vec<char> = &v[i].stem;
        if v[i].kind == Kind::Plain {
            let c: Option<usize> = if plain_before(&v, stem, i, Ghost(entries@)) {
                None
            } else {
                find_partner(&v, stem, Ghost(entries@))
            };
            let (seconds, bytes): (Bits, u64) = match c {
                Some(j) => (entries[j].seconds, entries[j].bytes),
                None => (single::ZERO, 0),
            };
            let t = Take {
                name: e.name.clone(),
                file: i,
                seconds: e.seconds,
                bytes: e.bytes,
                modified: e.modified,
                corrected: c,
                corrected_seconds: seconds,
                corrected_bytes: bytes,
            };
            assert(t == listed(entries@, i as int, paired(entries@, i as int)));
            put_in_order(&mut out, t);
            proof {
                vstd::seq_lib::to_multiset_build(shown(entries@, i as int), t);
            }
        } else if v[i].kind == Kind::Corrected {
            let last: bool = match find_partner(&v, stem, Ghost(entries@)) {
                Some(j) => j == i,
                None => false,
            };
            proof {
                if partner_at(entries@, stem@, i as int) {
                    lemma_partner_unique(
                        entries@,
                        stem@,
                        i as int,
                        partner(entries@, stem@),
                    );
                }
            }
            if last && !plain_before(&v, stem, entries.len(), Ghost(entries@)) {
                let t = Take {
                    name: e.name.clone(),
                    file: i,
                    seconds: e.seconds,
                    bytes: e.bytes,
                    modified: e.modified,
                    corrected: None,
                    corrected_seconds: single::ZERO,
                    corrected_bytes: 0,
                };
                assert(t == listed(entries@, i as int, None));
                put_in_order(&mut out, t);
                proof {
                    vstd::seq_lib::to_multiset_build(shown(entries@, i as int), t);
                }
            }
        }
        i = i + 1;
    }
    out
}

/// Is `c` an element that a Windows file name cannot have?
pub open spec fn bad_in_name(c: char) -> bool {
    c == '\\' || c == '/' || c == ':' || c == '*' || c == '?' || c == '"' || c == '<' || c == '>' || c
        == '|' || (c as int) < 0x20
}

fn is_bad(c: char) -> (r: bool)
    ensures
        r == bad_in_name(c),
{
    c == '\\' || c == '/' || c == ':' || c == '*' || c == '?' || c == '"' || c == '<' || c == '>' || c
        == '|' || (c as u32) < 0x20
}

/// The first character of a name that cannot be there.
pub open spec fn first_bad(s: Seq<char>) -> Option<char>
    decreases s.len(),
{
    if s.len() == 0 {
        None
    } else if bad_in_name(s[0]) {
        Some(s[0])
    } else {
        first_bad(s.drop_first())
    }
}

/// Text without an ending, where it has that ending.
pub open spec fn without_ending(s: Seq<char>, ending: Seq<char>) -> Seq<char> {
    if ending.is_suffix_of(s) {
        s.take(s.len() - ending.len())
    } else {
        s
    }
}

/// What counts of a name that somebody typed: no white space at its ends, and
/// no extension.
pub open spec fn bare_name(input: Seq<char>) -> Seq<char> {
    without_ending(without_ending(text::trimmed(input), ".wav"@), ".WAV"@)
}

/// The file name for what somebody typed, or why there is none. Names are
/// refused, not mended: who looks for the name that was typed is to find it.
pub open spec fn sanitized(input: Seq<char>) -> Result<Seq<char>, TakeError> {
    let s = bare_name(input);
    if s.len() == 0 {
        Err(TakeError::EmptyName)
    } else if text::utf8_len(s) > MAX_NAME_BYTES {
        Err(TakeError::NameTooLong)
    } else {
        match first_bad(s) {
            Some(c) => Err(TakeError::BadCharacter(c)),
            None => if s.last() == ' ' || s.last() == '.' {
                Err(TakeError::ReservedName)
            } else {
                Ok(s + ".wav"@)
            },
        }
    }
}

/// The file name for what somebody typed.
pub fn sanitize_name(input: &str) -> (r: Result<String, TakeError>)
    ensures
        r matches Ok(name) ==> sanitized(input@) == Ok::<Seq<char>, TakeError>(name@),
        r matches Err(e) ==> sanitized(input@) == Err::<Seq<char>, TakeError>(e),
{
    let chars: Vec<char> = text::chars_of(input);
    assert(chars@.subrange(0, chars@.len() as int) =~= input@);
    let (a, b0): (usize, usize) = text::trim_range(&chars, 0, chars.len());
    let b1: usize = if text::ends_with(&chars, a, b0, ".wav") {
        let x: Vec<char> = text::chars_of(".wav");
        b0 - x.len()
    } else {
        b0
    };
    assert(chars@.subrange(a as int, b1 as int) =~= without_ending(
        text::trimmed(input@),
        ".wav"@,
    ));
    let b: usize = if text::ends_with(&chars, a, b1, ".WAV") {
        let x: Vec<char> = text::chars_of(".WAV");
        b1 - x.len()
    } else {
        b1
    };
    let ghost s = bare_name(input@);
    assert(chars@.subrange(a as int, b as int) =~= s);
    if a == b {
        return Err(TakeError::EmptyName);
    }
    if text::longer_than(&chars, a, b, MAX_NAME_BYTES) {
        return Err(TakeError::NameTooLong);
    }
    let mut i: usize = a;
    assert(s.skip(0) =~= s);
    while i < b
        invariant
            a <= i <= b <= chars@.len(),
            s == chars@.subrange(a as int, b as int),
            first_bad(s) == first_bad(s.skip(i - a)),
            s == bare_name(input@),
            s.len() > 0,
            text::utf8_len(s) <= MAX_NAME_BYTES,
        decreases b - i,
    {
        assert(s.skip(i - a)[0] == chars@[i as int]);
        if is_bad(chars[i]) {
            return Err(TakeError::BadCharacter(chars[i]));
        }
        assert(s.skip(i - a).drop_first() =~= s.skip(i - a + 1));
        i = i + 1;
    }
    assert(s.last() == chars@[b - 1]);
    if chars[b - 1] == ' ' || chars[b - 1] == '.' {
        return Err(TakeError::ReservedName);
    }
    let mut name: String = text::string_of(&chars, a, b);
    let x: Vec<char> = text::chars_of(".wav");
    text::push_range(&mut name, &x, 0, x.len());
    assert(x@.subrange(0, x@.len() as int) =~= ".wav"@);
    Ok(name)
}

/// The name of the corrected version of a recording.
pub open spec fn corrected_name_of(name: Seq<char>) -> Seq<char> {
    paths::stem(name) + CORRECTED_ENDING@
}

/// The name of the corrected version of a recording.
pub fn corrected_name(name: &str) -> (r: String)
    ensures
        r@ == corrected_name_of(name@),
{
    let chars: Vec<char> = text::chars_of(name);
    assert(chars@.subrange(0, chars@.len() as int) =~= name@);
    let d: usize = paths::stem_end(&chars, 0, chars.len());
    let mut out: String = text::string_of(&chars, 0, d);
    let x: Vec<char> = text::chars_of(CORRECTED_ENDING);
    text::push_range(&mut out, &x, 0, x.len());
    assert(x@.subrange(0, x@.len() as int) =~= CORRECTED_ENDING@);
    out
}

/// A renaming of one file.
pub struct Move {
    pub from: String,
    pub to: String,
}

/// What renaming involves.
pub struct Renaming {
    /// The new name.
    pub name: String,
    /// The files to rename, in this order.
    pub moves: Vec<Move>,
}

/// Plans the renaming of the recording `src` to what somebody typed. `taken`
/// says whether there is a file of the new name, `has_corrected` whether the
/// recording has a corrected version. That one goes first, so that a failure
/// half-way leaves the recording under its name.
pub fn rename(src: &str, new_name: &str, taken: bool, has_corrected: bool) -> (r: Result<
    Renaming,
    TakeError,
>)
    ensures
        match sanitized(new_name@) {
            Err(e) => r == Err::<Renaming, TakeError>(e),
            Ok(name) => if name == src@ {
                r matches Ok(p) && p.name@ == name && p.moves@.len() == 0
            } else if taken {
                r == Err::<Renaming, TakeError>(TakeError::NameTaken)
            } else {
                r matches Ok(p) && p.name@ == name && {
                    let n = p.moves@.len();
                    &&& n == (if has_corrected {
                        2nat
                    } else {
                        1nat
                    })
                    &&& p.moves@[n - 1].from@ == src@
                    &&& p.moves@[n - 1].to@ == name
                    &&& has_corrected ==> p.moves@[0].from@ == corrected_name_of(src@)
                        && p.moves@[0].to@ == corrected_name_of(name)
                }
            },
        },
{
    let name: String = match sanitize_name(new_name) {
        Ok(n) => n,
        Err(e) => {
            return Err(e);
        },
    };
    let old_chars: Vec<char> = text::chars_of(src);
    let new_chars: Vec<char> = text::chars_of(name.as_str());
    if same_text(&old_chars, &new_chars) {
        return Ok(Renaming { name, moves: Vec::new() });
    }
    if taken {
        return Err(TakeError::NameTaken);
    }
    let mut moves: Vec<Move> = Vec::new();
    if has_corrected {
        moves.push(Move { from: corrected_name(src), to: corrected_name(name.as_str()) });
    }
    moves.push(Move { from: text::string_of(&old_chars, 0, old_chars.len()), to: name.clone() });
    assert(old_chars@.subrange(0, old_chars@.len() as int) =~= src@);
    Ok(Renaming { name, moves })
}

/// The files that go with the recording `src` when it is deleted: itself, and
/// its corrected version where that is asked for and there is one.
pub fn delete(src: &str, with_corrected: bool, has_corrected: bool) -> (victims: Vec<String>)
    ensures
        victims@.len() == (if with_corrected && has_corrected {
            2nat
        } else {
            1nat
        }),
        victims@[0]@ == src@,
        with_corrected && has_corrected ==> victims@[1]@ == corrected_name_of(src@),
{
    let chars: Vec<char> = text::chars_of(src);
    let mut victims: Vec<String> = Vec::new();
    victims.push(text::string_of(&chars, 0, chars.len()));
    assert(chars@.subrange(0, chars@.len() as int) =~= src@);
    if with_corrected && has_corrected {
        victims.push(corrected_name(src));
    }
    victims
}

/// The first `n` paths, each with a zero behind it.
pub open spec fn zero_ended(paths: Seq<Vec<u16>>, n: int) -> Seq<u16>
    decreases n,
{
    if n <= 0 {
        Seq::empty()
    } else {
        zero_ended(paths, n - 1) + paths[n - 1]@ + seq![0u16]
    }
}

/// The list that the recycler is handed: every path with a zero behind it, and
/// one more zero at the end.
pub fn recycle(paths: &Vec<Vec<u16>>) -> (list: Vec<u16>)
    ensures
        list@ == zero_ended(paths@, paths@.len() as int) + seq![0u16],
{
    let mut list: Vec<u16> = Vec::new();
    let mut i: usize = 0;
    while i < paths.len()
        invariant
            i <= paths@.len(),
            list@ == zero_ended(paths@, i as int),
        decreases paths@.len() - i,
    {
        let p: &Vec<u16> = &paths[i];
        let mut k: usize = 0;
        while k < p.len()
            invariant
                k <= p@.len(),
                list@ == zero_ended(paths@, i as int) + p@.take(k as int),
            decreases p@.len() - k,
        {
            list.push(p[k]);
            k = k + 1;
            assert(list@ =~= zero_ended(paths@, i as int) + p@.take(k as int));
        }
        list.push(0);
        i = i + 1;
        assert(list@ =~= zero_ended(paths@, i as int));
    }
    list.push(0);
    assert(list@ =~= zero_ended(paths@, paths@.len() as int) + seq![0u16]);
    list
}

/// What the recycler's answer means.
pub fn recycled(code: i32, aborted: bool) -> (r: Result<(), TakeError>)
    ensures
        r == (if code != 0 {
            Err::<(), TakeError>(TakeError::RecyclerFailed(code))
        } else if aborted {
            Err(TakeError::Aborted)
        } else {
            Ok(())
        }),
{
    if code != 0 {
        return Err(TakeError::RecyclerFailed(code));
    }
    if aborted {
        return Err(TakeError::Aborted);
    }
    Ok(())
}

/// Is `front` a beginning of `whole`, component by component?
pub open spec fn lies_under(whole: Seq<Vec<u8>>, front: Seq<Vec<u8>>) -> bool {
    &&& front.len() <= whole.len()
    &&& forall|i: int| 0 <= i < front.len() ==> (#[trigger] front[i])@ == whole[i]@
}

fn same_bytes(a: &Vec<u8>, b: &Vec<u8>) -> (r: bool)
    ensures
        r == (a@ == b@),
{
    if a.len() != b.len() {
        return false;
    }
    let mut i: usize = 0;
    while i < a.len()
        invariant
            a@.len() == b@.len(),
            i <= a@.len(),
            forall|j: int| 0 <= j < i ==> a@[j] == b@[j],
        decreases a@.len() - i,
    {
        if a[i] != b[i] {
            return false;
        }
        i = i + 1;
    }
    assert(a@ =~= b@);
    true
}

/// May a request touch this file? `dir` and `path` are the resolved paths of the
/// directory and of the file, as components, where they could be resolved;
/// `name` is the file's name. Only WAV files inside the directory are touched.
pub fn within(dir: Option<&Vec<Vec<u8>>>, path: Option<&Vec<Vec<u8>>>, name: &str) -> (r: Result<
    (),
    TakeError,
>)
    ensures
        r == (match (dir, path) {
            (None, _) => Err::<(), TakeError>(TakeError::NoDirectory),
            (Some(_), None) => Err(TakeError::NoFile),
            (Some(d), Some(p)) => if !lies_under(p@, d@) {
                Err(TakeError::Outside)
            } else if !names_wav(name@) {
                Err(TakeError::NotWav)
            } else {
                Ok(())
            },
        }),
        // Nothing outside the directory is ever touched.
        r is Ok ==> dir is Some && path is Some && lies_under(path->0@, dir->0@) && names_wav(name@),
{
    let d: &Vec<Vec<u8>> = match dir {
        Some(d) => d,
        None => {
            return Err(TakeError::NoDirectory);
        },
    };
    let p: &Vec<Vec<u8>> = match path {
        Some(p) => p,
        None => {
            return Err(TakeError::NoFile);
        },
    };
    if d.len() > p.len() {
        return Err(TakeError::Outside);
    }
    let mut i: usize = 0;
    while i < d.len()
        invariant
            dir == Some(d),
            path == Some(p),
            d@.len() <= p@.len(),
            i <= d@.len(),
            forall|j: int| 0 <= j < i ==> (#[trigger] d@[j])@ == p@[j]@,
        decreases d@.len() - i,
    {
        if !same_bytes(&d[i], &p[i]) {
            assert(d@[i as int]@ != p@[i as int]@);
            return Err(TakeError::Outside);
        }
        i = i + 1;
    }
    if !is_wav(name) {
        return Err(TakeError::NotWav);
    }
    Ok(())
}

/// What a resolved path begins with on Windows.
pub const VERBATIM_PREFIX: &'static str = "\\\\?\\";

/// A resolved path without the prefix that Windows puts before it, where a
/// drive follows the prefix; `None` where the path stays as it is.
pub open spec fn plain_path(s: Seq<char>) -> Option<Seq<char>> {
    let n = VERBATIM_PREFIX@.len() as int;
    if VERBATIM_PREFIX@.is_prefix_of(s) && s.len() >= n + 3 && paths::is_letter(s[n]) && s[n + 1]
        == ':' && s[n + 2] == '\\' {
        Some(s.skip(n))
    } else {
        None
    }
}

/// A resolved path without its prefix. Network paths keep theirs: without it
/// they would be no paths.
pub fn plain(s: &str) -> (r: Option<String>)
    ensures
        r is None <==> plain_path(s@) is None,
        r matches Some(p) ==> plain_path(s@) == Some(p@),
{
    let chars: Vec<char> = text::chars_of(s);
    assert(chars@.subrange(0, chars@.len() as int) =~= s@);
    if !text::begins_with(&chars, 0, chars.len(), VERBATIM_PREFIX) {
        return None;
    }
    let prefix: Vec<char> = text::chars_of(VERBATIM_PREFIX);
    let n: usize = prefix.len();
    if chars.len() - n >= 3 && paths::letter(chars[n]) && chars[n + 1] == ':' && chars[n + 2]
        == '\\' {
        let rest: String = text::string_of(&chars, n, chars.len());
        assert(rest@ =~= s@.skip(n as int));
        Some(rest)
    } else {
        None
    }
}

proof fn lemma_last_dot(name: Seq<char>, n: int)
    requires
        0 <= n <= name.len(),
    ensures
        last_dot_is(name, n, paths::last_dot(name, n)),
    decreases n,
{
    if n > 0 && name[n - 1] != '.' {
        lemma_last_dot(name, n - 1);
    }
}

spec fn last_dot_is(name: Seq<char>, n: int, d: Option<int>) -> bool {
    match d {
        Some(d) => 0 <= d < n && name[d] == '.' && forall|j: int| d < j < n ==> name[j] != '.',
        None => forall|j: int| 0 <= j < n ==> name[j] != '.',
    }
}

/// A name made of `front`, which is not empty, and ".wav" has `front` as its
/// stem, and names a WAV file.
proof fn lemma_wav_name(front: Seq<char>)
    requires
        front.len() > 0,
    ensures
        paths::stem(front + ".wav"@) == front,
        names_wav(front + ".wav"@),
{
    reveal_strlit(".wav");
    reveal_strlit("wav");
    let name = front + ".wav"@;
    let n = name.len() as int;
    let d = front.len() as int;
    assert(name[d] == '.' && name[d + 1] == 'w' && name[d + 2] == 'a' && name[d + 3] == 'v');
    lemma_last_dot(name, n);
    assert(paths::last_dot(name, n) == Some(d));
    assert(name.take(d) =~= front);
    let x = name.skip(d + 1);
    assert(text::lowered(x) =~= "wav"@);
}

/// The corrected version that is made of a recording is recognised as such, and
/// as belonging to that recording, whatever the recording is called.
pub proof fn corrected_versions_find_their_recordings(name: Seq<char>)
    ensures
        names_wav(corrected_name_of(name)),
        corrected_stem(paths::stem(corrected_name_of(name))),
        source_stem(paths::stem(corrected_name_of(name))) == paths::stem(name),
{
    reveal_strlit("-corrected");
    reveal_strlit("-corrected.wav");
    reveal_strlit(".wav");
    let stem = paths::stem(name);
    let front = stem + CORRECTED_SUFFIX@;
    assert(CORRECTED_ENDING@ =~= CORRECTED_SUFFIX@ + ".wav"@);
    assert(corrected_name_of(name) =~= front + ".wav"@);
    lemma_wav_name(front);
    assert(front.subrange(front.len() - CORRECTED_SUFFIX@.len(), front.len() as int)
        =~= CORRECTED_SUFFIX@);
    assert(source_stem(front) =~= stem);
}

/// Renaming keeps the pair together: under their new names the corrected
/// version still belongs to the recording.
pub proof fn renaming_keeps_the_pair(new_name: Seq<char>)
    requires
        sanitized(new_name) is Ok,
    ensures
        names_wav(sanitized(new_name)->Ok_0),
        paths::stem(sanitized(new_name)->Ok_0) == bare_name(new_name),
        source_stem(paths::stem(corrected_name_of(sanitized(new_name)->Ok_0))) == paths::stem(
            sanitized(new_name)->Ok_0,
        ),
{
    lemma_wav_name(bare_name(new_name));
    corrected_versions_find_their_recordings(sanitized(new_name)->Ok_0);
}

/// An accepted name holds none of the characters that a path would be cut at:
/// a new name cannot lead out of the directory.
pub proof fn accepted_names_stay_in_the_directory(input: Seq<char>, i: int)
    requires
        sanitized(input) is Ok,
        0 <= i < sanitized(input)->Ok_0.len(),
    ensures
        !bad_in_name(sanitized(input)->Ok_0[i]),
{
    reveal_strlit(".wav");
    let s = bare_name(input);
    let name = sanitized(input)->Ok_0;
    if i < s.len() {
        lemma_no_bad(s, i);
        assert(name[i] == s[i]);
    } else {
        assert(name[i] == ".wav"@[i - s.len()]);
    }
}

proof fn lemma_no_bad(s: Seq<char>, i: int)
    requires
        first_bad(s) is None,
        0 <= i < s.len(),
    ensures
        !bad_in_name(s[i]),
    decreases i,
{
    if i > 0 {
        lemma_no_bad(s.drop_first(), i - 1);
    }
}

/// Every plain recording is shown, and so is a corrected version whose recording is
/// gone. Of several corrected versions for one stem, which differ only in the case of
/// their extensions, just the last is shown.
pub proof fn every_recording_is_shown(entries: Seq<Entry>, n: int, i: int)
    requires
        0 <= i < n <= entries.len(),
        entries.len() <= usize::MAX,
        plain_entry(entries[i]) || orphan(entries, i),
    ensures
        exists|k: int|
            0 <= k < shown(entries, n).len() && #[trigger] shown(entries, n)[k].file == i
                && shown(entries, n)[k].name == entries[i].name,
    decreases n,
{
    let before = shown(entries, n - 1);
    if i == n - 1 {
        assert(shown(entries, n).last().file == i);
    } else {
        every_recording_is_shown(entries, n - 1, i);
        let k = choose|k: int|
            0 <= k < before.len() && #[trigger] before[k].file == i && before[k].name
                == entries[i].name;
        assert(shown(entries, n)[k] == before[k]);
    }
}

/// A list as the recycler reads it: texts up to a zero each, until an empty one.
pub open spec fn read_list(list: Seq<u16>, pos: int) -> Seq<Seq<u16>>
    decreases list.len() - pos,
{
    if pos < 0 || pos >= list.len() || list[pos] == 0 {
        Seq::empty()
    } else {
        let end = next_zero(list, pos);
        if pos < end < list.len() {
            seq![list.subrange(pos, end)] + read_list(list, end + 1)
        } else {
            Seq::empty()
        }
    }
}

/// The place of the first zero from `pos` on.
pub open spec fn next_zero(list: Seq<u16>, pos: int) -> int
    decreases list.len() - pos,
{
    if pos >= list.len() || list[pos] == 0 {
        pos
    } else {
        next_zero(list, pos + 1)
    }
}

proof fn lemma_next_zero(list: Seq<u16>, pos: int, end: int)
    requires
        0 <= pos <= end < list.len(),
        list[end] == 0,
        forall|i: int| pos <= i < end ==> list[i] != 0,
    ensures
        next_zero(list, pos) == end,
    decreases end - pos,
{
    if pos < end {
        lemma_next_zero(list, pos + 1, end);
    }
}

proof fn lemma_zero_ended_grows(paths: Seq<Vec<u16>>, k: int, n: int)
    requires
        0 <= k <= n <= paths.len(),
    ensures
        zero_ended(paths, k).len() <= zero_ended(paths, n).len(),
        zero_ended(paths, n).take(zero_ended(paths, k).len() as int) == zero_ended(paths, k),
    decreases n - k,
{
    if k < n {
        lemma_zero_ended_grows(paths, k, n - 1);
        let a = zero_ended(paths, k);
        let b = zero_ended(paths, n - 1);
        let c = zero_ended(paths, n);
        assert(c.take(a.len() as int) =~= b.take(a.len() as int));
    } else {
        assert(zero_ended(paths, n).take(zero_ended(paths, n).len() as int) =~= zero_ended(
            paths,
            n,
        ));
    }
}

proof fn lemma_read_list(paths: Seq<Vec<u16>>, k: int)
    requires
        0 <= k <= paths.len(),
        forall|i: int|
            0 <= i < paths.len() ==> (#[trigger] paths[i])@.len() > 0 && !paths[i]@.contains(0),
    ensures
        read_list(
            zero_ended(paths, paths.len() as int) + seq![0u16],
            zero_ended(paths, k).len() as int,
        ) == Seq::new((paths.len() - k) as nat, |i: int| paths[k + i]@),
    decreases paths.len() - k,
{
    let all = zero_ended(paths, paths.len() as int);
    let list = all + seq![0u16];
    let pos = zero_ended(paths, k).len() as int;
    let rest = Seq::new((paths.len() - k) as nat, |i: int| paths[k + i]@);
    if k == paths.len() {
        assert(list[pos] == 0);
        assert(rest =~= Seq::<Seq<u16>>::empty());
    } else {
        let p = paths[k]@;
        let end = pos + p.len();
        lemma_zero_ended_grows(paths, k + 1, paths.len() as int);
        let upto = zero_ended(paths, k + 1);
        assert(upto.len() == end + 1);
        assert forall|i: int| 0 <= i < upto.len() implies list[i] == #[trigger] upto[i] by {
            assert(all.take(upto.len() as int)[i] == all[i]);
        }
        assert forall|i: int| pos <= i < end implies list[i] != 0 && list[i] == p[i - pos] by {
            assert(list[i] == upto[i]);
            assert(p.contains(p[i - pos]));
        }
        assert(list[end] == upto[end] && upto[end] == 0);
        lemma_next_zero(list, pos, end);
        assert(list.subrange(pos, end) =~= p);
        lemma_read_list(paths, k + 1);
        let tail = Seq::new((paths.len() - (k + 1)) as nat, |i: int| paths[k + 1 + i]@);
        assert(rest =~= seq![p] + tail);
    }
}

/// The recycler reads back exactly the paths that it was handed, and stops at
/// the end of the list: as long as no path is empty or holds a zero, none is
/// lost, cut or read past.
pub proof fn the_recycler_reads_back_the_paths(paths: Seq<Vec<u16>>)
    requires
        forall|i: int|
            0 <= i < paths.len() ==> (#[trigger] paths[i])@.len() > 0 && !paths[i]@.contains(0),
    ensures
        read_list(zero_ended(paths, paths.len() as int) + seq![0u16], 0) == paths.map_values(
            |p: Vec<u16>| p@,
        ),
{
    lemma_read_list(paths, 0);
    assert(zero_ended(paths, 0).len() == 0);
    assert(Seq::new((paths.len() - 0) as nat, |i: int| paths[0 + i]@) =~= paths.map_values(
        |p: Vec<u16>| p@,
    ));
}

/// The newest recordings come first, and of two of one time the one whose name is first.
pub proof fn the_newest_come_first(a: Take, b: Take)
    ensures
        a.modified > b.modified ==> comes_before(a, b) && !comes_before(b, a),
        a.modified == b.modified && text::text_before(a.name@, b.name@) ==> comes_before(a, b),
        a.modified == b.modified && a.name@ == b.name@ ==> !comes_before(a, b),
{
    lemma_text_before_irreflexive(a.name@);
}

/// What a listing shows is there: each line is an entry of its own, in the order of the
/// entries, with that entry's name, length, size and time.
pub proof fn every_line_is_an_entry(entries: Seq<Entry>, n: int, k: int)
    requires
        0 <= n <= entries.len(),
        entries.len() <= usize::MAX,
        0 <= k < shown(entries, n).len(),
    ensures
        ({
            let t = shown(entries, n)[k];
            let i = t.file as int;
            &&& 0 <= i < n
            &&& entries[i].is_file && names_wav(entries[i].name@)
            &&& t.name == entries[i].name && t.seconds == entries[i].seconds && t.bytes
                == entries[i].bytes && t.modified == entries[i].modified
            &&& k > 0 ==> shown(entries, n)[k - 1].file < t.file
            &&& t.corrected matches Some(c) ==> c < entries.len() && corrected_entry(
                entries[c as int],
            ) && source_stem(paths::stem(entries[c as int].name@)) == paths::stem(entries[i].name@)
                && t.corrected_seconds == entries[c as int].seconds && t.corrected_bytes
                == entries[c as int].bytes
            &&& t.corrected is Some ==> !corrected_stem(paths::stem(entries[i].name@))
        }),
    decreases n,
{
    if n > 0 {
        let before = shown(entries, n - 1);
        if k < before.len() {
            every_line_is_an_entry(entries, n - 1, k);
            assert(shown(entries, n)[k] == before[k]);
            if k > 0 {
                assert(shown(entries, n)[k - 1] == before[k - 1]);
            }
        } else {
            if k > 0 {
                every_line_is_an_entry(entries, n - 1, k - 1);
                assert(shown(entries, n)[k - 1] == before[k - 1]);
            }
            if plain_entry(entries[n - 1]) {
                let stem = paths::stem(entries[n - 1].name@);
                if has_partner(entries, stem) {
                    assert(partner_at(entries, stem, partner(entries, stem)));
                }
            }
        }
    }
}

/// No corrected version is shown with two recordings.
pub proof fn a_corrected_version_has_one_recording(entries: Seq<Entry>, i: int, j: int)
    requires
        0 <= i < j < entries.len(),
        plain_entry(entries[i]),
        plain_entry(entries[j]),
        paired(entries, i) is Some,
    ensures
        paired(entries, i) != paired(entries, j),
{
    let si = paths::stem(entries[i].name@);
    let sj = paths::stem(entries[j].name@);
    assert(partner_at(entries, si, partner(entries, si)));
    if si == sj {
        assert(has_plain(entries, sj, j));
    } else if has_partner(entries, sj) {
        assert(partner_at(entries, sj, partner(entries, sj)));
    }
}

/// A path lies under its own beginning, and under nothing that differs from it in a
/// component or is longer than it.
pub proof fn only_a_beginning_holds_a_path(
    whole: Seq<Vec<u8>>,
    front: Seq<Vec<u8>>,
    rest: Seq<Vec<u8>>,
    i: int,
)
    ensures
        lies_under(front + rest, front),
        front.len() > whole.len() ==> !lies_under(whole, front),
        0 <= i < front.len() && i < whole.len() && front[i]@ != whole[i]@ ==> !lies_under(
            whole,
            front,
        ),
        lies_under(whole, front) && lies_under(front, rest) ==> lies_under(whole, rest),
{
    assert forall|k: int| 0 <= k < front.len() implies (#[trigger] front[k])@ == (front + rest)[k]@ by {}
    if lies_under(whole, front) && lies_under(front, rest) {
        assert forall|k: int| 0 <= k < rest.len() implies (#[trigger] rest[k])@ == whole[k]@ by {
            assert(rest[k]@ == front[k]@);
            assert(front[k]@ == whole[k]@);
        }
    }
}

/// A name is the same with and without its extension, whatever white space was typed around
/// it.
pub proof fn an_extension_may_be_typed(name: Seq<char>, space: Seq<char>)
    requires
        name.len() > 0,
        !text::is_space(name[0]),
        !text::is_space(name.last()),
        !".wav"@.is_suffix_of(name),
        !".WAV"@.is_suffix_of(name),
        forall|i: int| 0 <= i < space.len() ==> text::is_space(#[trigger] space[i]),
    ensures
        bare_name(name) == name,
        bare_name(name + ".wav"@) == name,
        bare_name(name + ".WAV"@) == name,
        bare_name(space + name + space) == name,
        bare_name(space + (name + ".wav"@) + space) == name,
{
    reveal_strlit(".wav");
    reveal_strlit(".WAV");
    let none = Seq::<char>::empty();
    let a = name + ".wav"@;
    let b = name + ".WAV"@;
    text::trimming_undoes_white_space(none, name, none);
    text::trimming_undoes_white_space(none, a, none);
    text::trimming_undoes_white_space(none, b, none);
    text::trimming_undoes_white_space(space, name, space);
    text::trimming_undoes_white_space(space, a, space);
    assert(none + name + none =~= name);
    assert(none + a + none =~= a);
    assert(none + b + none =~= b);
    assert(a.subrange(a.len() - 4, a.len() as int) =~= ".wav"@);
    assert(a.take(a.len() - 4) =~= name);
    assert(b.subrange(b.len() - 4, b.len() as int) =~= ".WAV"@);
    assert(b.take(b.len() - 4) =~= name);
    assert(b.last() == 'V');
    if ".wav"@.is_suffix_of(b) {
        assert(b.subrange(b.len() - 4, b.len() as int)[3] == ".wav"@[3]);
    }
}

/// The character that a name is refused for is its first bad one.
pub proof fn the_first_bad_character_is_told(s: Seq<char>)
    ensures
        first_bad(s) matches Some(c) ==> exists|k: int|
            0 <= k < s.len() && #[trigger] s[k] == c && bad_in_name(c) && forall|i: int|
                0 <= i < k ==> !bad_in_name(#[trigger] s[i]),
        first_bad(s) is None ==> forall|i: int| 0 <= i < s.len() ==> !bad_in_name(#[trigger] s[i]),
    decreases s.len(),
{
    if s.len() > 0 && !bad_in_name(s[0]) {
        let rest = s.drop_first();
        the_first_bad_character_is_told(rest);
        if let Some(c) = first_bad(rest) {
            let k = choose|k: int|
                0 <= k < rest.len() && #[trigger] rest[k] == c && bad_in_name(c) && forall|i: int|
                    0 <= i < k ==> !bad_in_name(#[trigger] rest[i]);
            assert(s[k + 1] == c);
            assert forall|i: int| 0 <= i < k + 1 implies !bad_in_name(#[trigger] s[i]) by {
                if i > 0 {
                    assert(!bad_in_name(rest[i - 1]));
                }
            }
        } else {
            assert forall|i: int| 0 <= i < s.len() implies !bad_in_name(#[trigger] s[i]) by {
                if i > 0 {
                    assert(!bad_in_name(rest[i - 1]));
                }
            }
        }
    } else if s.len() > 0 {
        assert(s[0] == first_bad(s)->0);
    }
}

/// A name that says nothing is refused as empty; one that is accepted is what was typed,
/// ends in `.wav` and stays within its length.
pub proof fn accepted_names_are_what_was_typed(input: Seq<char>)
    ensures
        (forall|i: int| 0 <= i < input.len() ==> text::is_space(#[trigger] input[i])) ==> sanitized(
            input,
        ) == Err::<Seq<char>, TakeError>(TakeError::EmptyName),
        sanitized(input) matches Ok(name) ==> {
            &&& name == bare_name(input) + ".wav"@
            &&& 0 < bare_name(input).len()
            &&& vstd::utf8::encode_utf8(bare_name(input)).len() <= 120
            &&& bare_name(input).last() != '.'
            &&& bare_name(input).last() != ' '
        },
{
    reveal_strlit(".wav");
    reveal_strlit(".WAV");
    text::the_length_is_that_of_the_encoding(bare_name(input));
    text::trimming_takes_only_the_ends(input);
    if forall|i: int| 0 <= i < input.len() ==> text::is_space(#[trigger] input[i]) {
        let (a, b) = choose|a: int, b: int|
            0 <= a <= b <= input.len() && text::trimmed(input) == #[trigger] input.subrange(a, b);
        if text::trimmed(input).len() > 0 {
            assert(text::is_space(input[a]));
            assert(text::trimmed(input)[0] == input[a]);
        }
    }
}

/// The prefix that is taken off a path is what stood in front of it, and only a drive with
/// its root is left bare.
pub proof fn a_plain_path_lacks_just_its_prefix(s: Seq<char>, p: Seq<char>)
    ensures
        plain_path(s) == Some(p) ==> s == VERBATIM_PREFIX@ + p,
        plain_path(VERBATIM_PREFIX@ + p) == (if p.len() >= 3 && paths::is_letter(p[0]) && p[1] == ':'
            && p[2] == '\\' {
            Some(p)
        } else {
            None
        }),
        plain_path(s) matches Some(q) ==> plain_path(q) is None,
{
    reveal_strlit("\\\\?\\");
    let v = VERBATIM_PREFIX@;
    let w = v + p;
    assert(w.subrange(0, v.len() as int) =~= v);
    assert(w.skip(v.len() as int) =~= p);
    if plain_path(s) == Some(p) {
        assert(s =~= v + p);
    }
    if let Some(q) = plain_path(s) {
        if v.is_prefix_of(q) {
            assert(q[0] == v[0]);
        }
    }
}

/// A corrected version is shown with the first plain recording of its stem, and of several
/// corrected versions the last is.
pub proof fn a_recording_finds_its_corrected_version(entries: Seq<Entry>, i: int, c: int)
    requires
        0 <= i < entries.len(),
        0 <= c < entries.len(),
        plain_entry(entries[i]),
        corrected_entry(entries[c]),
        source_stem(paths::stem(entries[c].name@)) == paths::stem(entries[i].name@),
        forall|j: int|
            0 <= j < i && plain_entry(#[trigger] entries[j]) ==> paths::stem(entries[j].name@)
                != paths::stem(entries[i].name@),
        forall|j: int|
            c < j < entries.len() && corrected_entry(#[trigger] entries[j]) ==> source_stem(
                paths::stem(entries[j].name@),
            ) != paths::stem(entries[i].name@),
    ensures
        paired(entries, i) == Some(c),
{
    let stem = paths::stem(entries[i].name@);
    assert(partner_at(entries, stem, c));
    lemma_partner_unique(entries, stem, partner(entries, stem), c);
}

/// A corrected version whose recording is gone is shown alone, the last of several; one
/// whose recording is there is not.
pub proof fn a_corrected_version_alone_is_shown(entries: Seq<Entry>, i: int)
    requires
        0 <= i < entries.len(),
        corrected_entry(entries[i]),
    ensures
        ({
            let stem = source_stem(paths::stem(entries[i].name@));
            orphan(entries, i) <==> (forall|j: int|
                0 <= j < entries.len() && plain_entry(#[trigger] entries[j]) ==> paths::stem(
                    entries[j].name@,
                ) != stem) && (forall|j: int|
                i < j < entries.len() && corrected_entry(#[trigger] entries[j]) ==> source_stem(
                    paths::stem(entries[j].name@),
                ) != stem)
        }),
{
}

} // verus!
