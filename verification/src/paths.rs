//! Paths as text: where the file name lies in one, and what its stem is.
//!
//! Both `/` and `\` separate components. In front there may stand a drive such as
//! `C:`, a share such as `\\server\share`, a device such as `\\.\COM1`, or a prefix
//! that begins with `\\?\`: what follows such a prefix is taken literally, so that
//! only `\` separates there and a component that says "here" stays one.
use crate::text;
use vstd::prelude::*;

verus! {

/// Does this character separate components?
pub open spec fn is_sep(c: char) -> bool {
    c == '/' || c == '\\'
}

/// Does this character separate components of a path, which may be a literal one?
pub open spec fn divides(literal: bool, c: char) -> bool {
    c == '\\' || (!literal && c == '/')
}

/// Is this an ASCII letter?
pub open spec fn is_letter(c: char) -> bool {
    ('a' <= c && c <= 'z') || ('A' <= c && c <= 'Z')
}

/// Does a drive such as `C:` stand at `at`?
pub open spec fn drive_at(s: Seq<char>, at: int) -> bool {
    s.len() >= at + 2 && is_letter(s[at]) && s[at + 1] == ':'
}

/// Is the path taken literally: does it begin with `\\?\`?
pub open spec fn is_literal(s: Seq<char>) -> bool {
    s.len() >= 4 && s[0] == '\\' && s[1] == '\\' && s[2] == '?' && s[3] == '\\'
}

/// Does a literal path name a share: does it begin with `\\?\UNC\`?
pub open spec fn is_literal_share(s: Seq<char>) -> bool {
    is_literal(s) && s.len() >= 8 && s[4] == 'U' && s[5] == 'N' && s[6] == 'C' && s[7] == '\\'
}

/// Does a path begin with two separators?
pub open spec fn is_doubled(s: Seq<char>) -> bool {
    s.len() >= 2 && is_sep(s[0]) && is_sep(s[1])
}

/// Does a path name a device: does it begin with `\\.\`?
pub open spec fn is_device(s: Seq<char>) -> bool {
    is_doubled(s) && s.len() >= 4 && s[2] == '.' && is_sep(s[3])
}

/// The first separator from `from` on, or the end of the path.
pub open spec fn run_end(s: Seq<char>, literal: bool, from: int) -> int
    decreases s.len() - from,
{
    if from >= s.len() || divides(literal, s[from]) {
        from
    } else {
        run_end(s, literal, from + 1)
    }
}

/// Where the share ends whose server begins at `from`, if there is a share.
pub open spec fn share_end(s: Seq<char>, literal: bool, from: int) -> Option<int> {
    let server = run_end(s, literal, from);
    if server < s.len() && run_end(s, literal, server + 1) > server + 1 {
        Some(run_end(s, literal, server + 1))
    } else {
        None
    }
}

/// Length of what stands in front of a path: its drive, share, device or literal
/// prefix.
pub open spec fn prefix_len(s: Seq<char>) -> int {
    if is_literal_share(s) {
        match share_end(s, true, 8) {
            Some(e) => e,
            None => run_end(s, true, 8),
        }
    } else if is_literal(s) {
        if drive_at(s, 4) && (s.len() == 6 || is_sep(s[6])) {
            6
        } else {
            run_end(s, true, 4)
        }
    } else if is_device(s) {
        run_end(s, false, 4)
    } else if is_doubled(s) {
        match share_end(s, false, 2) {
            Some(e) => if run_end(s, false, 2) > 2 {
                e
            } else {
                0
            },
            None => 0,
        }
    } else if drive_at(s, 0) {
        2
    } else {
        0
    }
}

/// Where the components of a path begin: behind its prefix and the separator there.
pub open spec fn body_start(s: Seq<char>) -> int {
    let p = prefix_len(s);
    if p < s.len() && is_sep(s[p]) {
        p + 1
    } else {
        p
    }
}

/// Where the component that ends at `end` begins.
pub open spec fn component_start(s: Seq<char>, literal: bool, base: int, end: int) -> int
    decreases end - base,
{
    if end <= base || divides(literal, s[end - 1]) {
        end
    } else {
        component_start(s, literal, base, end - 1)
    }
}

/// Where the last component of a path lies, looking no farther than `end`.
/// Separators behind it do not count, nor do components that say "here", unless the
/// path is literal; there is none where the path ends in "one up" or holds no
/// component.
pub open spec fn last_component(s: Seq<char>, literal: bool, base: int, end: int) -> Option<
    (int, int),
>
    decreases end - base,
{
    if end <= base {
        None
    } else if divides(literal, s[end - 1]) {
        last_component(s, literal, base, end - 1)
    } else {
        let start = component_start(s, literal, base, end);
        let name = s.subrange(start, end);
        if !(base <= start < end) {
            None
        } else if name == seq!['.'] {
            if literal {
                None
            } else {
                last_component(s, literal, base, start)
            }
        } else if name == seq!['.', '.'] {
            None
        } else {
            Some((start, end))
        }
    }
}

/// Where the file name of a path lies. The root of a drive or of a share has none.
pub open spec fn file_name(s: Seq<char>) -> Option<(int, int)> {
    last_component(s, is_literal(s), body_start(s), s.len() as int)
}

/// The place of the last dot among the first `n` characters, if there is one.
pub open spec fn last_dot(name: Seq<char>, n: int) -> Option<int>
    decreases n,
{
    if n <= 0 {
        None
    } else if name[n - 1] == '.' {
        Some(n - 1)
    } else {
        last_dot(name, n - 1)
    }
}

/// A file name up to its extension. A dot in front belongs to the name.
pub open spec fn stem(name: Seq<char>) -> Seq<char> {
    match last_dot(name, name.len() as int) {
        Some(d) => if d > 0 {
            name.take(d)
        } else {
            name
        },
        None => name,
    }
}

/// The extension of a file name, without its dot.
pub open spec fn extension(name: Seq<char>) -> Option<Seq<char>> {
    match last_dot(name, name.len() as int) {
        Some(d) => if d > 0 {
            Some(name.skip(d + 1))
        } else {
            None
        },
        None => None,
    }
}

/// Does a name pushed behind a path need a separator? Not behind one, nor behind a bare
/// drive, where the name is meant in the drive's current directory.
pub open spec fn wants_sep(s: Seq<char>) -> bool {
    if s.len() > body_start(s) {
        !divides(is_literal(s), s.last())
    } else {
        0 < prefix_len(s) == body_start(s) && !(s.len() == 2 && drive_at(s, 0))
    }
}

/// A path with its file name replaced by the stem and `suffix`. A path without
/// a file name gets the suffix as one.
pub open spec fn with_suffix(s: Seq<char>, suffix: Seq<char>) -> Seq<char> {
    match file_name(s) {
        Some((a, b)) => s.take(a) + stem(s.subrange(a, b)) + suffix,
        None => if wants_sep(s) {
            s.push('\\') + suffix
        } else {
            s + suffix
        },
    }
}

fn sep(c: char) -> (r: bool)
    ensures
        r == is_sep(c),
{
    c == '/' || c == '\\'
}

/// Is this an ASCII letter?
pub fn letter(c: char) -> (r: bool)
    ensures
        r == is_letter(c),
{
    ('a' <= c && c <= 'z') || ('A' <= c && c <= 'Z')
}

/// Does this character separate components of a path, which may be a literal one?
fn cuts(literal: bool, c: char) -> (r: bool)
    ensures
        r == divides(literal, c),
{
    c == '\\' || (!literal && c == '/')
}

proof fn lemma_run_end(s: Seq<char>, literal: bool, from: int)
    requires
        0 <= from <= s.len(),
    ensures
        from <= run_end(s, literal, from) <= s.len(),
        run_end(s, literal, from) < s.len() ==> divides(literal, s[run_end(s, literal, from)]),
        forall|k: int| from <= k < run_end(s, literal, from) ==> !divides(literal, #[trigger] s[k]),
    decreases s.len() - from,
{
    if from < s.len() && !divides(literal, s[from]) {
        lemma_run_end(s, literal, from + 1);
    }
}

proof fn lemma_run_end_is(s: Seq<char>, literal: bool, from: int, end: int)
    requires
        0 <= from <= end < s.len(),
        divides(literal, s[end]),
        forall|k: int| from <= k < end ==> !divides(literal, #[trigger] s[k]),
    ensures
        run_end(s, literal, from) == end,
    decreases end - from,
{
    if from < end {
        lemma_run_end_is(s, literal, from + 1, end);
    }
}

proof fn lemma_run_to_the_end(s: Seq<char>, literal: bool, from: int)
    requires
        0 <= from <= s.len(),
        forall|k: int| from <= k < s.len() ==> !divides(literal, #[trigger] s[k]),
    ensures
        run_end(s, literal, from) == s.len(),
    decreases s.len() - from,
{
    if from < s.len() {
        lemma_run_to_the_end(s, literal, from + 1);
    }
}

proof fn lemma_prefix(s: Seq<char>)
    ensures
        0 <= prefix_len(s) <= body_start(s) <= s.len(),
        is_doubled(s) && 0 < prefix_len(s) < s.len() ==> body_start(s) == prefix_len(s) + 1,
        is_literal(s) ==> 4 <= prefix_len(s),
        prefix_len(s) == 0 || 2 <= prefix_len(s),
        !is_doubled(s) ==> prefix_len(s) <= 2,
{
    if s.len() >= 2 {
        lemma_run_end(s, false, 2);
        if run_end(s, false, 2) < s.len() {
            lemma_run_end(s, false, run_end(s, false, 2) + 1);
        }
    }
    if s.len() >= 4 {
        lemma_run_end(s, true, 4);
        lemma_run_end(s, false, 4);
    }
    if s.len() >= 8 {
        lemma_run_end(s, true, 8);
        if run_end(s, true, 8) < s.len() {
            lemma_run_end(s, true, run_end(s, true, 8) + 1);
        }
    }
}

proof fn lemma_component_start(s: Seq<char>, literal: bool, base: int, end: int)
    requires
        0 <= base <= end,
    ensures
        base <= component_start(s, literal, base, end) <= end,
    decreases end - base,
{
    if !(end <= base || divides(literal, s[end - 1])) {
        lemma_component_start(s, literal, base, end - 1);
    }
}

proof fn lemma_component_is(s: Seq<char>, literal: bool, base: int, a: int, end: int)
    requires
        0 <= base <= a <= end <= s.len(),
        forall|k: int| a <= k < end ==> !divides(literal, #[trigger] s[k]),
        a == base || divides(literal, s[a - 1]),
    ensures
        component_start(s, literal, base, end) == a,
    decreases end - a,
{
    if a < end {
        lemma_component_is(s, literal, base, a, end - 1);
    }
}

proof fn lemma_component_holds_no_separator(s: Seq<char>, literal: bool, base: int, end: int)
    requires
        0 <= base <= end <= s.len(),
    ensures
        base <= component_start(s, literal, base, end) <= end,
        component_start(s, literal, base, end) == base || divides(
            literal,
            s[component_start(s, literal, base, end) - 1],
        ),
        forall|k: int|
            component_start(s, literal, base, end) <= k < end ==> !divides(literal, #[trigger] s[k]),
    decreases end - base,
{
    if !(end <= base || divides(literal, s[end - 1])) {
        lemma_component_holds_no_separator(s, literal, base, end - 1);
    }
}

proof fn lemma_last_component(s: Seq<char>, literal: bool, base: int, end: int)
    requires
        0 <= base <= end <= s.len(),
    ensures
        last_component(s, literal, base, end) matches Some((a, b)) ==> {
            &&& base <= a < b <= end
            &&& a == base || divides(literal, s[a - 1])
            &&& forall|k: int| a <= k < b ==> !divides(literal, #[trigger] s[k])
        },
    decreases end - base,
{
    if end > base {
        if divides(literal, s[end - 1]) {
            lemma_last_component(s, literal, base, end - 1);
        } else {
            lemma_component_holds_no_separator(s, literal, base, end);
            let start = component_start(s, literal, base, end);
            if base <= start < end && s.subrange(start, end) == seq!['.'] && !literal {
                lemma_last_component(s, literal, base, start);
            }
        }
    }
}

/// Another file name leaves the prefix of a path alone: two paths that agree up to the
/// file name have the same prefix.
proof fn lemma_same_prefix(s: Seq<char>, out: Seq<char>, a: int)
    requires
        body_start(s) <= a < s.len(),
        a + 2 < out.len(),
        out.take(a) == s.take(a),
        forall|k: int| a <= k < out.len() ==> !divides(is_literal(s), #[trigger] out[k]),
        !divides(is_literal(s), s[a]),
        is_literal(s) ==> a > prefix_len(s),
        a == body_start(s) || divides(is_literal(s), s[a - 1]),
        a == 0 ==> out[0] == s[0] && (drive_at(s, 0) <==> out[1] == ':' && is_letter(out[0])),
    ensures
        is_literal(out) == is_literal(s),
        body_start(out) == body_start(s),
{
    lemma_prefix(s);
    let p = prefix_len(s);
    assert forall|k: int| 0 <= k < a implies #[trigger] out[k] == s[k] by {
        assert(out[k] == out.take(a)[k]);
        assert(s[k] == s.take(a)[k]);
    }
    if is_literal(s) {
        lemma_run_end(s, true, 4);
        assert(p < s.len());
        if is_literal_share(s) {
            lemma_run_end(s, true, 8);
            let server = run_end(s, true, 8);
            if server < s.len() {
                lemma_run_end(s, true, server + 1);
                let share = run_end(s, true, server + 1);
                if server < a {
                    assert(out[server] == s[server]);
                    lemma_run_end_is(out, true, 8, server);
                    if share < a {
                        assert(out[share] == s[share]);
                        lemma_run_end_is(out, true, server + 1, share);
                    }
                }
            }
        } else {
            let e = run_end(s, true, 4);
            if drive_at(s, 4) && (s.len() == 6 || is_sep(s[6])) {
                assert(p == 6);
                assert(out[4] == s[4] && out[5] == s[5] && out[6] == s[6]);
            } else {
                assert(p == e);
                assert(out[e] == s[e]);
                lemma_run_end_is(out, true, 4, e);
                if drive_at(out, 4) && is_sep(out[6]) {
                    assert(e >= 6);
                }
            }
            if is_literal_share(out) {
                assert(e >= 7);
            }
        }
    } else if is_doubled(s) {
        assert(a >= 2);
        lemma_run_end(s, false, 2);
        lemma_run_end(out, false, 2);
        if is_device(s) {
            lemma_run_end(s, false, 4);
            assert(out[p] == s[p]);
            assert(out[2] == s[2] && out[3] == s[3]);
            lemma_run_end_is(out, false, 4, p);
        } else {
            let server = run_end(s, false, 2);
            assert(!divides(false, out[a]) && !divides(false, out[a + 1]));
            assert(!is_literal(out) && !is_device(out)) by {
                if a <= 3 {
                    assert(!divides(false, out[3]));
                } else {
                    assert(out[2] == s[2] && out[3] == s[3]);
                }
            }
            if server >= a {
                assert forall|k: int| 2 <= k < out.len() implies !divides(
                    false,
                    #[trigger] out[k],
                ) by {
                    if k < a {
                        assert(out[k] == s[k]);
                    }
                }
                lemma_run_to_the_end(out, false, 2);
            }
            if server < a {
                assert(out[server] == s[server]);
                lemma_run_end_is(out, false, 2, server);
                lemma_run_end(s, false, server + 1);
                lemma_run_end(out, false, server + 1);
                let share = run_end(s, false, server + 1);
                if share < a {
                    assert(out[share] == s[share]);
                    lemma_run_end_is(out, false, server + 1, share);
                }
            }
        }
    } else {
        assert(!divides(false, out[a]));
        assert(!is_doubled(out)) by {
            if a >= 2 {
                assert(out[0] == s[0] && out[1] == s[1]);
            }
        }
        if a >= 1 {
            assert(out[0] == s[0]);
        }
        if a >= 2 {
            assert(out[1] == s[1]);
        }
    }
}

proof fn lemma_last_dot(name: Seq<char>, n: int)
    requires
        0 <= n <= name.len(),
    ensures
        last_dot(name, n) matches Some(d) ==> 0 <= d < n,
    decreases n,
{
    if n > 0 && name[n - 1] != '.' {
        lemma_last_dot(name, n - 1);
    }
}

/// A path with a new ending stays in its directory: what stands before the file
/// name is kept, and the file name is the stem with the ending behind it.
pub proof fn a_new_ending_keeps_the_directory(s: Seq<char>, suffix: Seq<char>)
    requires
        file_name(s) is Some,
        suffix.len() > 2,
        suffix[0] != ':',
        forall|k: int| 0 <= k < suffix.len() ==> !is_sep(#[trigger] suffix[k]),
    ensures
        ({
            let (a, b) = file_name(s)->0;
            let out = with_suffix(s, suffix);
            &&& out.take(a) == s.take(a)
            &&& file_name(out) == Some((a, out.len() as int))
            &&& out.subrange(a, out.len() as int) == stem(s.subrange(a, b)) + suffix
        }),
{
    let (a, b) = file_name(s)->0;
    let base = body_start(s);
    let literal = is_literal(s);
    lemma_prefix(s);
    lemma_last_component(s, literal, base, s.len() as int);
    let name = s.subrange(a, b);
    let st = stem(name);
    lemma_last_dot(name, name.len() as int);
    let out = with_suffix(s, suffix);
    assert(0 < st.len() <= name.len());
    assert forall|k: int| 0 <= k < st.len() implies #[trigger] st[k] == s[a + k] by {
        assert(st[k] == name[k]);
    }
    assert(out.take(a) =~= s.take(a));
    assert(out.subrange(a, out.len() as int) =~= st + suffix);
    assert forall|k: int| a <= k < out.len() implies !divides(literal, #[trigger] out[k]) by {
        if k < a + st.len() {
            assert(out[k] == st[k - a]);
        } else {
            assert(out[k] == suffix[k - a - st.len()]);
        }
    }
    assert(out[a] == st[0]);
    if a == 0 {
        if st.len() >= 2 {
            assert(out[1] == st[1]);
        } else {
            assert(out[1] == suffix[0]);
        }
    }
    lemma_same_prefix(s, out, a);
    assert(a == base || out[a - 1] == s[a - 1]) by {
        if a != base {
            assert(out.take(a)[a - 1] == s.take(a)[a - 1]);
        }
    }
    lemma_component_is(out, literal, base, a, out.len() as int);
    let whole = out.subrange(a, out.len() as int);
    assert(whole.len() > 2);
}

fn find_run_end(s: &[char], literal: bool, from: usize) -> (e: usize)
    requires
        from <= s@.len(),
    ensures
        e == run_end(s@, literal, from as int),
        from <= e <= s@.len(),
{
    let mut e: usize = from;
    while e < s.len() && !cuts(literal, s[e])
        invariant
            from <= e <= s@.len(),
            run_end(s@, literal, from as int) == run_end(s@, literal, e as int),
        decreases s@.len() - e,
    {
        e = e + 1;
    }
    e
}

fn find_share_end(s: &[char], literal: bool, from: usize) -> (e: Option<usize>)
    requires
        from <= s@.len(),
    ensures
        e matches Some(n) ==> share_end(s@, literal, from as int) == Some(n as int) && n
            <= s@.len(),
        e is None <==> share_end(s@, literal, from as int) is None,
{
    let server: usize = find_run_end(s, literal, from);
    if server < s.len() {
        let end: usize = find_run_end(s, literal, server + 1);
        if end > server + 1 {
            return Some(end);
        }
    }
    None
}

fn has_drive(s: &[char], at: usize) -> (r: bool)
    requires
        at + 2 <= usize::MAX,
    ensures
        r == drive_at(s@, at as int),
{
    s.len() >= at + 2 && letter(s[at]) && s[at + 1] == ':'
}

/// Is the path taken literally?
fn taken_literally(s: &[char]) -> (r: bool)
    ensures
        r == is_literal(s@),
{
    s.len() >= 4 && s[0] == '\\' && s[1] == '\\' && s[2] == '?' && s[3] == '\\'
}

/// Length of what stands in front of a path.
fn find_prefix(s: &[char]) -> (p: usize)
    ensures
        p == prefix_len(s@),
        p <= s@.len(),
{
    proof {
        lemma_prefix(s@);
    }
    if taken_literally(s) {
        if s.len() >= 8 && s[4] == 'U' && s[5] == 'N' && s[6] == 'C' && s[7] == '\\' {
            return match find_share_end(s, true, 8) {
                Some(e) => e,
                None => find_run_end(s, true, 8),
            };
        }
        if has_drive(s, 4) && (s.len() == 6 || sep(s[6])) {
            return 6;
        }
        return find_run_end(s, true, 4);
    }
    if s.len() >= 2 && sep(s[0]) && sep(s[1]) {
        if s.len() >= 4 && s[2] == '.' && sep(s[3]) {
            return find_run_end(s, false, 4);
        }
        if find_run_end(s, false, 2) > 2 {
            return match find_share_end(s, false, 2) {
                Some(e) => e,
                None => 0,
            };
        }
        return 0;
    }
    if has_drive(s, 0) {
        2
    } else {
        0
    }
}

/// Where the components of a path begin.
fn find_body(s: &[char]) -> (b: usize)
    ensures
        b == body_start(s@),
        b <= s@.len(),
{
    let p: usize = find_prefix(s);
    if p < s.len() && sep(s[p]) {
        p + 1
    } else {
        p
    }
}

/// Where the file name of a path lies.
pub fn find_file_name(s: &[char]) -> (r: Option<(usize, usize)>)
    ensures
        r is None <==> file_name(s@) is None,
        r matches Some((a, b)) ==> file_name(s@) == Some((a as int, b as int)) && a <= b
            <= s@.len(),
{
    let base: usize = find_body(s);
    let literal: bool = taken_literally(s);
    let mut end: usize = s.len();
    while end > base
        invariant
            base == body_start(s@),
            literal == is_literal(s@),
            base <= end <= s@.len(),
            file_name(s@) == last_component(s@, literal, base as int, end as int),
        decreases end,
    {
        if cuts(literal, s[end - 1]) {
            end = end - 1;
        } else {
            let mut start: usize = end;
            while start > base && !cuts(literal, s[start - 1])
                invariant
                    base <= start <= end <= s@.len(),
                    component_start(s@, literal, base as int, end as int) == component_start(
                        s@,
                        literal,
                        base as int,
                        start as int,
                    ),
                decreases start,
            {
                start = start - 1;
            }
            let ghost name = s@.subrange(start as int, end as int);
            assert(component_start(s@, literal, base as int, end as int) == start);
            assert(component_start(s@, literal, base as int, end as int) <= end - 1) by {
                lemma_component_start(s@, literal, base as int, end - 1);
            }
            if end - start == 1 && s[start] == '.' {
                assert(name =~= seq!['.']);
                if literal {
                    return None;
                }
                end = start;
            } else if end - start == 2 && s[start] == '.' && s[start + 1] == '.' {
                assert(name =~= seq!['.', '.']);
                assert(name.len() == 2 && seq!['.'].len() == 1);
                return None;
            } else {
                proof {
                    let one = seq!['.'];
                    let two = seq!['.', '.'];
                    assert(one.len() == 1 && one[0] == '.');
                    assert(two.len() == 2 && two[0] == '.' && two[1] == '.');
                    assert(name[0] == s@[start as int]);
                    if name.len() == 2 {
                        assert(name[1] == s@[start + 1]);
                    }
                    assert(name != one);
                    assert(name != two);
                }
                return Some((start, end));
            }
        }
    }
    None
}

/// Where the extension of the name `from..to` begins with its dot; `to` where it
/// has none.
pub fn stem_end(s: &[char], from: usize, to: usize) -> (d: usize)
    requires
        from <= to <= s@.len(),
    ensures
        from <= d <= to,
        s@.subrange(from as int, d as int) == stem(s@.subrange(from as int, to as int)),
        d < to ==> extension(s@.subrange(from as int, to as int)) == Some(
            s@.subrange(d + 1, to as int),
        ),
        d == to ==> extension(s@.subrange(from as int, to as int)) is None,
{
    let ghost name = s@.subrange(from as int, to as int);
    let mut n: usize = to;
    while n > from
        invariant
            from <= n <= to <= s@.len(),
            name == s@.subrange(from as int, to as int),
            last_dot(name, name.len() as int) == last_dot(name, n - from),
        decreases n,
    {
        assert(name[n - 1 - from] == s@[n - 1]);
        if s[n - 1] == '.' {
            let d: usize = n - 1;
            if d > from {
                assert(s@.subrange(from as int, d as int) =~= name.take(d - from));
                assert(name.skip(d - from + 1) =~= s@.subrange(d + 1, to as int));
                return d;
            }
            return to;
        }
        n = n - 1;
    }
    to
}

/// A path with its file name replaced by the stem and `suffix`.
pub fn replace_name(path: &str, suffix: &str) -> (r: String)
    ensures
        r@ == with_suffix(path@, suffix@),
{
    let s: Vec<char> = text::chars_of(path);
    let x: Vec<char> = text::chars_of(suffix);
    let mut out: String = String::new();
    match find_file_name(&s) {
        Some((a, b)) => {
            let d: usize = stem_end(&s, a, b);
            text::push_range(&mut out, &s, 0, a);
            text::push_range(&mut out, &s, a, d);
            text::push_range(&mut out, &x, 0, x.len());
            assert(x@.subrange(0, x@.len() as int) =~= x@);
            assert(out@ =~= with_suffix(path@, suffix@));
        },
        None => {
            let base: usize = find_body(&s);
            let wanted: bool = if s.len() > base {
                !cuts(taken_literally(&s), s[s.len() - 1])
            } else {
                let p: usize = find_prefix(&s);
                0 < p && p == base && !(s.len() == 2 && has_drive(&s, 0))
            };
            text::push_range(&mut out, &s, 0, s.len());
            if wanted {
                out.push('\\');
            }
            text::push_range(&mut out, &x, 0, x.len());
            assert(x@.subrange(0, x@.len() as int) =~= x@);
            assert(s@.subrange(0, s@.len() as int) =~= s@);
            assert(out@ =~= with_suffix(path@, suffix@));
        },
    }
    out
}

proof fn lemma_last_dot_is_last(name: Seq<char>, n: int)
    requires
        0 <= n <= name.len(),
    ensures
        match last_dot(name, n) {
            Some(d) => 0 <= d < n && name[d] == '.' && forall|j: int|
                d < j < n ==> #[trigger] name[j] != '.',
            None => forall|j: int| 0 <= j < n ==> #[trigger] name[j] != '.',
        },
    decreases n,
{
    if n > 0 && name[n - 1] != '.' {
        lemma_last_dot_is_last(name, n - 1);
    }
}

/// A file name is its stem, a dot and its extension, where it has one, and the stem alone
/// where it has none. An extension holds no dot, and no file name is without a stem. A name
/// without an extension has no dot, except for one in front.
pub proof fn a_name_is_stem_and_extension(name: Seq<char>)
    ensures
        extension(name) matches Some(x) ==> name == stem(name).push('.') + x && !x.contains('.')
            && stem(name).len() > 0,
        extension(name) is None ==> stem(name) == name && forall|i: int|
            0 < i < name.len() ==> #[trigger] name[i] != '.',
        name.len() > 0 ==> stem(name).len() > 0,
{
    lemma_last_dot_is_last(name, name.len() as int);
    if let Some(d) = last_dot(name, name.len() as int) {
        if d > 0 {
            assert(name =~= name.take(d).push('.') + name.skip(d + 1));
            let x = name.skip(d + 1);
            assert forall|k: int| 0 <= k < x.len() implies #[trigger] x[k] != '.' by {
                assert(x[k] == name[d + 1 + k]);
            }
        }
    }
}

/// What a file name says of a path: it lies behind the prefix, begins at the body or behind
/// a separator, holds none, and is neither "here" nor "one up".
pub proof fn a_file_name_is_one_component(s: Seq<char>)
    requires
        file_name(s) is Some,
    ensures
        ({
            let (a, b) = file_name(s)->0;
            &&& prefix_len(s) <= a < b <= s.len()
            &&& a == body_start(s) || s[a - 1] == '\\' || s[a - 1] == '/'
            &&& forall|k: int| a <= k < b ==> #[trigger] s[k] != '\\'
            &&& !is_literal(s) ==> forall|k: int| a <= k < b ==> #[trigger] s[k] != '/'
            &&& s.subrange(a, b) != seq!['.']
            &&& s.subrange(a, b) != seq!['.', '.']
            &&& b < s.len() ==> divides(is_literal(s), s[b])
        }),
{
    let base = body_start(s);
    lemma_prefix(s);
    lemma_last_component(s, is_literal(s), base, s.len() as int);
    lemma_last_component_name(s, is_literal(s), base, s.len() as int);
}

proof fn lemma_last_component_name(s: Seq<char>, literal: bool, base: int, end: int)
    requires
        0 <= base <= end <= s.len(),
    ensures
        last_component(s, literal, base, end) matches Some((a, b)) ==> {
            &&& s.subrange(a, b) != seq!['.']
            &&& s.subrange(a, b) != seq!['.', '.']
            &&& b < end ==> divides(literal, s[b])
        },
    decreases end - base,
{
    if end > base {
        if divides(literal, s[end - 1]) {
            lemma_last_component_name(s, literal, base, end - 1);
        } else {
            lemma_component_holds_no_separator(s, literal, base, end);
            let start = component_start(s, literal, base, end);
            if base <= start < end && s.subrange(start, end) == seq!['.'] && !literal {
                lemma_last_component_name(s, literal, base, start);
                lemma_last_component(s, literal, base, start);
            }
        }
    }
}

proof fn lemma_trailing_separators(
    s: Seq<char>,
    literal: bool,
    base: int,
    a: int,
    b: int,
    end: int,
)
    requires
        0 <= base <= a < b <= end <= s.len(),
        a == base || divides(literal, s[a - 1]),
        forall|k: int| a <= k < b ==> !divides(literal, #[trigger] s[k]),
        forall|k: int| b <= k < end ==> divides(literal, #[trigger] s[k]),
        s.subrange(a, b) != seq!['.'],
        s.subrange(a, b) != seq!['.', '.'],
    ensures
        last_component(s, literal, base, end) == Some((a, b)),
    decreases end - b,
{
    if b < end {
        assert(divides(literal, s[end - 1]));
        lemma_trailing_separators(s, literal, base, a, b, end - 1);
    } else {
        assert(!divides(literal, s[end - 1]));
        lemma_component_is(s, literal, base, a, end);
    }
}

/// The last component of a path is its file name, whatever number of separators stands
/// behind it, as long as it is neither "here" nor "one up".
pub proof fn the_last_component_is_the_file_name(s: Seq<char>, a: int, b: int)
    requires
        body_start(s) <= a < b <= s.len(),
        a == body_start(s) || s[a - 1] == '\\' || (!is_literal(s) && s[a - 1] == '/'),
        forall|k: int| a <= k < b ==> !divides(is_literal(s), #[trigger] s[k]),
        forall|k: int| b <= k < s.len() ==> divides(is_literal(s), #[trigger] s[k]),
        s.subrange(a, b) != seq!['.'],
        s.subrange(a, b) != seq!['.', '.'],
    ensures
        file_name(s) == Some((a, b)),
{
    lemma_prefix(s);
    lemma_trailing_separators(s, is_literal(s), body_start(s), a, b, s.len() as int);
}

/// A path that is no network path has a prefix just where it begins with a drive, and then
/// one of two characters.
pub proof fn a_drive_is_a_prefix(s: Seq<char>)
    requires
        s.len() >= 2,
        s[0] != '\\' && s[0] != '/',
    ensures
        prefix_len(s) == (if s[1] == ':' && (('a' <= s[0] && s[0] <= 'z') || ('A' <= s[0] && s[0]
            <= 'Z')) {
            2int
        } else {
            0
        }),
{
}

/// The prefix of a network path is its server and its share.
pub proof fn a_share_is_a_prefix(server: Seq<char>, share: Seq<char>, rest: Seq<char>)
    requires
        server.len() > 1,
        share.len() > 0,
        forall|k: int|
            0 <= k < server.len() ==> #[trigger] server[k] != '\\' && server[k] != '/',
        forall|k: int| 0 <= k < share.len() ==> #[trigger] share[k] != '\\' && share[k] != '/',
    ensures
        prefix_len(seq!['\\', '\\'] + server + seq!['\\'] + share + seq!['\\'] + rest) == 2
            + server.len() + 1 + share.len(),
        body_start(seq!['\\', '\\'] + server + seq!['\\'] + share + seq!['\\'] + rest) == 2
            + server.len() + 1 + share.len() + 1,
{
    let s = seq!['\\', '\\'] + server + seq!['\\'] + share + seq!['\\'] + rest;
    let m: int = 2 + server.len() as int;
    let e: int = m + 1 + share.len() as int;
    assert(s[0] == '\\' && s[1] == '\\' && s[m] == '\\' && s[e] == '\\');
    assert(s[3] == server[1]);
    assert forall|k: int| 2 <= k < m implies !divides(false, #[trigger] s[k]) by {
        assert(s[k] == server[k - 2]);
    }
    assert forall|k: int| m + 1 <= k < e implies !divides(false, #[trigger] s[k]) by {
        assert(s[k] == share[k - (m + 1)]);
    }
    lemma_run_end_is(s, false, 2, m);
    lemma_run_end_is(s, false, m + 1, e);
}

/// A suffix pushed behind a path without a file name follows it, with at most one separator
/// between, and none behind a separator.
pub proof fn a_suffix_follows_its_path(s: Seq<char>, suffix: Seq<char>)
    requires
        file_name(s) is None,
    ensures
        with_suffix(s, suffix) == s + suffix || with_suffix(s, suffix) == s + seq!['\\'] + suffix,
        s.len() > body_start(s) && s.last() == '\\' ==> with_suffix(s, suffix) == s + suffix,
        s.len() > body_start(s) && s.last() != '\\' && s.last() != '/' ==> with_suffix(s, suffix)
            == s + seq!['\\'] + suffix,
        s.len() == 0 ==> with_suffix(s, suffix) == suffix,
{
    assert(s.push('\\') + suffix =~= s + seq!['\\'] + suffix);
    if s.len() == 0 {
        assert(s + suffix =~= suffix);
    }
}

/// The prefix of a literal path is its drive, or its server and its share. A slash does not
/// divide one.
pub proof fn a_literal_path_keeps_its_prefix(
    letter: char,
    server: Seq<char>,
    share: Seq<char>,
    rest: Seq<char>,
)
    requires
        is_letter(letter),
        share.len() > 0,
        forall|k: int| 0 <= k < server.len() ==> #[trigger] server[k] != '\\',
        forall|k: int| 0 <= k < share.len() ==> #[trigger] share[k] != '\\',
    ensures
        prefix_len(seq!['\\', '\\', '?', '\\', letter, ':', '\\'] + rest) == 6,
        is_literal(seq!['\\', '\\', '?', '\\'] + rest),
        prefix_len(
            seq!['\\', '\\', '?', '\\', 'U', 'N', 'C', '\\'] + server + seq!['\\'] + share + seq![
                '\\',
            ] + rest,
        ) == 8 + server.len() + 1 + share.len(),
{
    let d = seq!['\\', '\\', '?', '\\', letter, ':', '\\'] + rest;
    assert(d[0] == '\\' && d[1] == '\\' && d[2] == '?' && d[3] == '\\' && d[4] == letter && d[5]
        == ':' && d[6] == '\\');
    let front = seq!['\\', '\\', '?', '\\', 'U', 'N', 'C', '\\'];
    let s = front + server + seq!['\\'] + share + seq!['\\'] + rest;
    let m: int = 8 + server.len() as int;
    let e: int = m + 1 + share.len() as int;
    assert forall|k: int| 0 <= k < 8 implies #[trigger] s[k] == front[k] by {}
    assert(s[0] == front[0] && s[1] == front[1] && s[2] == front[2] && s[3] == front[3] && s[4]
        == front[4] && s[5] == front[5] && s[6] == front[6] && s[7] == front[7]);
    assert(s[m] == '\\' && s[e] == '\\');
    assert forall|k: int| 8 <= k < m implies !divides(true, #[trigger] s[k]) by {
        assert(s[k] == server[k - 8]);
    }
    assert forall|k: int| m + 1 <= k < e implies !divides(true, #[trigger] s[k]) by {
        assert(s[k] == share[k - (m + 1)]);
    }
    lemma_run_end_is(s, true, 8, m);
    lemma_run_end_is(s, true, m + 1, e);
}

/// The prefix of a device path is the device. Three separators in front are no network path:
/// its server would have no name.
pub proof fn a_device_is_a_prefix(name: Seq<char>, rest: Seq<char>)
    requires
        forall|k: int| 0 <= k < name.len() ==> #[trigger] name[k] != '\\' && name[k] != '/',
    ensures
        prefix_len(seq!['\\', '\\', '.', '\\'] + name + seq!['\\'] + rest) == 4 + name.len(),
        prefix_len(seq!['\\', '\\', '\\'] + rest) == 0,
{
    let s = seq!['\\', '\\', '.', '\\'] + name + seq!['\\'] + rest;
    let m: int = 4 + name.len() as int;
    assert(s[0] == '\\' && s[1] == '\\' && s[2] == '.' && s[3] == '\\' && s[m] == '\\');
    assert forall|k: int| 4 <= k < m implies !divides(false, #[trigger] s[k]) by {
        assert(s[k] == name[k - 4]);
    }
    lemma_run_end_is(s, false, 4, m);
    let t = seq!['\\', '\\', '\\'] + rest;
    assert(t[0] == '\\' && t[1] == '\\' && t[2] == '\\');
}

} // verus!
