use vstd::prelude::*;

verus! {

/// `p` without trailing separators and trailing `.` components.
pub open spec fn trim_tail(p: Seq<char>) -> Seq<char>
    decreases p.len(),
{
    if p.len() > 1 && p.last() == '/' {
        trim_tail(p.drop_last())
    } else if p.len() >= 2 && p.last() == '.' && p[p.len() - 2] == '/' {
        trim_tail(p.drop_last())
    } else {
        p
    }
}

/// The index of the last `c` of `s`, or -1.
pub open spec fn last_index_of(s: Seq<char>, c: char) -> int
    decreases s.len(),
{
    if s.len() == 0 {
        -1
    } else if s.last() == c {
        s.len() - 1
    } else {
        last_index_of(s.drop_last(), c)
    }
}

/// The last component of path `p`, unless it is empty, `.` or `..`.
pub open spec fn file_name_spec(p: Seq<char>) -> Option<Seq<char>> {
    let t = trim_tail(p);
    let name = t.skip(last_index_of(t, '/') + 1);
    if name.len() == 0 || name == seq!['.'] || name == seq!['.', '.'] {
        None
    } else {
        Some(name)
    }
}

/// The extension of path `p`: what follows the last `.` of its file name,
/// unless that dot starts the name.
pub open spec fn extension_spec(p: Seq<char>) -> Option<Seq<char>> {
    match file_name_spec(p) {
        Some(name) => {
            let d = last_index_of(name, '.');
            if d <= 0 {
                None
            } else {
                Some(name.skip(d + 1))
            }
        },
        None => None,
    }
}

/// The code of `c` with ASCII capitals lowered.
pub open spec fn lower_code(c: char) -> u32 {
    if 'A' <= c <= 'Z' {
        (c as u32 + 32) as u32
    } else {
        c as u32
    }
}

/// Whether `a` and `b` are equal ignoring ASCII case.
pub open spec fn eq_ignore_ascii_case_spec(a: Seq<char>, b: Seq<char>) -> bool {
    a.len() == b.len() && forall|i: int| 0 <= i < a.len() ==> lower_code(#[trigger] a[i]) == lower_code(b[i])
}

fn lower(c: char) -> (r: u32)
    ensures
        r == lower_code(c),
{
    if 'A' <= c && c <= 'Z' {
        c as u32 + 32
    } else {
        c as u32
    }
}

/// Whether `path` names a composition file: its extension is `facomp` in
/// any ASCII case.
pub fn is_facomp_path(path: &str) -> (b: bool)
    ensures
        b == (extension_spec(path@) matches Some(e) && eq_ignore_ascii_case_spec(e, seq!['f', 'a', 'c', 'o', 'm', 'p'])),
{
    let target = ['f', 'a', 'c', 'o', 'm', 'p'];
    proof {
        assert(target@ =~= seq!['f', 'a', 'c', 'o', 'm', 'p']);
    }
    has_extension(path, &target)
}

/// Whether `path` names a FLAC file: its extension is `flac` in any ASCII
/// case.
pub fn is_flac_path(path: &str) -> (b: bool)
    ensures
        b == (extension_spec(path@) matches Some(e) && eq_ignore_ascii_case_spec(e, seq!['f', 'l', 'a', 'c'])),
{
    let target = ['f', 'l', 'a', 'c'];
    proof {
        assert(target@ =~= seq!['f', 'l', 'a', 'c']);
    }
    has_extension(path, &target)
}

/// Where the file name of `path` (the characters `chars`) lies, unless
/// [`file_name_spec`] gives none.
fn file_name_bounds(chars: &Vec<char>) -> (r: Option<(usize, usize)>)
    ensures
        r matches Some((a, b)) ==> a <= b <= chars@.len() && file_name_spec(chars@) == Some(
            chars@.subrange(a as int, b as int),
        ),
        r is None <==> file_name_spec(chars@) is None,
{
    let mut end: usize = chars.len();
    proof {
        assert(chars@.take(end as int) =~= chars@);
    }
    while (end > 1 && chars[end - 1] == '/') || (end >= 2 && chars[end - 1] == '.' && chars[end - 2] == '/')
        invariant
            end <= chars@.len(),
            trim_tail(chars@) == trim_tail(chars@.take(end as int)),
        decreases end,
    {
        proof {
            assert(chars@.take(end as int).drop_last() =~= chars@.take(end - 1));
        }
        end -= 1;
    }
    let ghost t = chars@.take(end as int);
    proof {
        assert(trim_tail(t) == t);
    }
    let mut slash: usize = end;
    while slash > 0 && chars[slash - 1] != '/'
        invariant
            slash <= end,
            end <= chars@.len(),
            t == chars@.take(end as int),
            forall|q: int| slash <= q < end ==> chars@[q] != '/',
        decreases slash,
    {
        slash -= 1;
    }
    proof {
        lemma_last_index(t, '/', slash as int - 1);
    }
    let name_start = slash;
    let ghost name = t.skip(name_start as int);
    proof {
        assert(name =~= chars@.subrange(name_start as int, end as int));
    }
    let name_len = end - name_start;
    if name_len == 0 {
        return None;
    }
    if name_len == 1 && chars[name_start] == '.' {
        proof {
            assert(name =~= seq!['.']);
        }
        return None;
    }
    if name_len == 2 && chars[name_start] == '.' && chars[name_start + 1] == '.' {
        proof {
            assert(name =~= seq!['.', '.']);
        }
        return None;
    }
    proof {
        assert(name.len() == name_len);
        if name == seq!['.'] {
            assert(name[0] == chars@[name_start as int]);
        }
        if name == seq!['.', '.'] {
            assert(name[0] == chars@[name_start as int]);
            assert(name[1] == chars@[name_start + 1]);
        }
    }
    Some((name_start, end))
}

/// The last component of `path`, unless it is empty, `.` or `..`.
pub fn file_name(path: &str) -> (r: Option<String>)
    ensures
        r matches Some(n) ==> file_name_spec(path@) == Some(n@),
        r is None <==> file_name_spec(path@) is None,
{
    let chars = crate::text::chars_of(path);
    match file_name_bounds(&chars) {
        Some((a, b)) => {
            let mut out = String::new();
            crate::text::push_chars(&mut out, &chars, a, b);
            proof {
                assert(Seq::<char>::empty() + chars@.subrange(a as int, b as int) =~= chars@.subrange(
                    a as int,
                    b as int,
                ));
            }
            Some(out)
        },
        None => None,
    }
}

/// The name a composition goes by: the file name of its first media's path,
/// else `snd-review`.
pub open spec fn display_name_spec(first_media_path: Option<Seq<char>>) -> Seq<char> {
    match first_media_path {
        Some(p) => match file_name_spec(p) {
            Some(name) => name,
            None => "snd-review"@,
        },
        None => "snd-review"@,
    }
}

/// The name a composition goes by, given the path of its first media (by
/// id): that path's file name, else `snd-review`.
pub fn display_name(first_media_path: Option<&str>) -> (r: String)
    ensures
        r@ == display_name_spec(
            match first_media_path {
                Some(p) => Some(p@),
                None => None,
            },
        ),
{
    match first_media_path {
        Some(p) => match file_name(p) {
            Some(name) => name,
            None => crate::text::string_of("snd-review"),
        },
        None => crate::text::string_of("snd-review"),
    }
}

/// The file name offered when a composition is first saved: its display name
/// with `.facomp` appended.
pub fn suggested_facomp_name(first_media_path: Option<&str>) -> (r: String)
    ensures
        r@ == display_name_spec(
            match first_media_path {
                Some(p) => Some(p@),
                None => None,
            },
        ) + ".facomp"@,
{
    let mut name = display_name(first_media_path);
    name.append(".facomp");
    name
}

/// Whether the extension of `path` is `target` in any ASCII case.
pub fn has_extension(path: &str, target: &[char]) -> (b: bool)
    ensures
        b == (extension_spec(path@) matches Some(e) && eq_ignore_ascii_case_spec(e, target@)),
{
    let chars = crate::text::chars_of(path);
    let (name_start, end) = match file_name_bounds(&chars) {
        Some(bounds) => bounds,
        None => return false,
    };
    let ghost name = chars@.subrange(name_start as int, end as int);
    proof {
        assert(name =~= chars@.take(end as int).skip(name_start as int));
    }
    let mut dot: usize = end;
    while dot > name_start && chars[dot - 1] != '.'
        invariant
            name_start <= dot <= end,
            end <= chars@.len(),
            name == chars@.take(end as int).skip(name_start as int),
            forall|q: int| dot <= q < end ==> chars@[q] != '.',
        decreases dot,
    {
        dot -= 1;
    }
    proof {
        lemma_last_index(name, '.', dot - name_start - 1);
    }
    if dot <= name_start + 1 {
        return false;
    }
    let ext_start = dot;
    let ghost ext = name.skip(dot - name_start);
    let n = target.len();
    if end - ext_start != n {
        return false;
    }
    proof {
        assert(extension_spec(path@) == Some(ext));
        assert forall|q: int| 0 <= q < n implies #[trigger] ext[q] == chars@[ext_start + q] by {
            assert(ext[q] == name[dot - name_start + q]);
        }
    }
    let mut i: usize = 0;
    while i < n
        invariant
            i <= n,
            n == target@.len(),
            extension_spec(path@) == Some(ext),
            ext_start + n == end,
            end <= chars@.len(),
            ext.len() == n,
            forall|q: int| 0 <= q < n ==> #[trigger] ext[q] == chars@[ext_start + q],
            forall|q: int| 0 <= q < i ==> lower_code(#[trigger] ext[q]) == lower_code(target@[q]),
        decreases n - i,
    {
        if lower(chars[ext_start + i]) != lower(target[i]) {
            proof {
                assert(ext[i as int] == chars@[ext_start + i]);
                assert(lower_code(ext[i as int]) != lower_code(target@[i as int]));
            }
            return false;
        }
        i += 1;
    }
    true
}

/// `last_index_of` finds the last occurrence.
proof fn lemma_last_index(s: Seq<char>, c: char, k: int)
    requires
        -1 <= k < s.len(),
        k >= 0 ==> s[k] == c,
        forall|q: int| k < q < s.len() ==> s[q] != c,
    ensures
        last_index_of(s, c) == k,
    decreases s.len(),
{
    if s.len() > 0 && k < s.len() - 1 {
        let t = s.drop_last();
        assert forall|q: int| k < q < t.len() implies t[q] != c by {
            assert(t[q] == s[q]);
        }
        if k >= 0 {
            assert(t[k] == s[k]);
        }
        lemma_last_index(t, c, k);
    }
}

} // verus!
