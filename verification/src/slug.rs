//! Names made from titles: slugs for ids, and file names that a file
//! system accepts.
use vstd::prelude::*;
use crate::text::{
    chars_of, control, decimal, extend, holds_string, is_control, is_whitespace,
    lemma_decimal_injective, replace_char, replaced, string_of, to_decimal, trim, trimmed, views,
    whitespace,
};
use crate::trusted::{lowercase, lowercase_of, uuid_v5, uuid_v5_text};

verus! {

/// The namespace under which ids are derived from slugs.
pub const SLUG_NAMESPACE: u128 = 0x6ba7b810_9dad_11d1_80b4_00c04fd430c8;

/// The characters a slug is made of, besides the hyphen.
pub open spec fn is_slug_char(c: char) -> bool {
    ('a' <= c <= 'z') || ('0' <= c <= '9')
}

fn slug_char(c: char) -> (r: bool)
    ensures
        r == is_slug_char(c),
{
    (c >= 'a' && c <= 'z') || (c >= '0' && c <= '9')
}

/// The parts of `s` that are made of slug characters, joined by single
/// hyphens: every other character separates two parts, and what separates
/// nothing is dropped.
pub open spec fn slug_text(s: Seq<char>) -> Seq<char>
    decreases s.len(),
{
    if s.len() == 0 {
        Seq::empty()
    } else {
        let head = slug_text(s.drop_last());
        let c = s.last();
        if !is_slug_char(c) {
            head
        } else if head.len() > 0 && !is_slug_char(s[s.len() - 2]) {
            head.push('-').push(c)
        } else {
            head.push(c)
        }
    }
}

/// Whether a text has the shape of a slug: slug characters and hyphens,
/// no hyphen at either end, no two hyphens in a row.
pub open spec fn slug_shaped(r: Seq<char>) -> bool {
    &&& forall|i: int| 0 <= i < r.len() ==> is_slug_char(#[trigger] r[i]) || r[i] == '-'
    &&& r.len() > 0 ==> is_slug_char(r[0]) && is_slug_char(r.last())
    &&& forall|i: int| 0 <= i < r.len() - 1 && #[trigger] r[i] == '-' ==> is_slug_char(r[i + 1])
}

/// What `slug_text` gives has the shape of a slug.
pub proof fn lemma_slug_shaped(s: Seq<char>)
    ensures
        slug_shaped(slug_text(s)),
    decreases s.len(),
{
    if s.len() > 0 {
        lemma_slug_shaped(s.drop_last());
    }
}

/// The slug of a trimmed title whose lower-case form is `lowered`: the
/// parts of the lower-case form joined by hyphens. A title with nothing in
/// it has the empty slug; one that has characters but none for a slug is
/// "untitled".
pub open spec fn slug_for(trimmed_title: Seq<char>, lowered: Seq<char>) -> Seq<char> {
    let s = slug_text(lowered);
    if s.len() > 0 {
        s
    } else if trimmed_title.len() == 0 {
        Seq::empty()
    } else {
        "untitled"@
    }
}

/// The slug of a title: the title is trimmed and put in lower case, and
/// its parts are joined by hyphens.
pub open spec fn slug_of(title: Seq<char>) -> Seq<char> {
    slug_for(trimmed(title), lowercase_of(trimmed(title)))
}

/// The slug made of a text that is in lower case already.
pub fn slug_from_lowercase(lowered: &str) -> (slug: String)
    ensures
        slug@ == slug_text(lowered@),
        slug_shaped(slug@),
{
    let chars = chars_of(lowered);
    let mut out: Vec<char> = Vec::new();
    let mut i: usize = 0;
    assert(chars@.take(0) =~= Seq::<char>::empty());
    while i < chars.len()
        invariant
            i <= chars.len(),
            out@ == slug_text(chars@.take(i as int)),
        decreases chars.len() - i,
    {
        proof {
            let t = chars@.take(i + 1);
            assert(t.drop_last() =~= chars@.take(i as int));
            assert(t.last() == chars@[i as int]);
            if i > 0 {
                assert(t[t.len() - 2] == chars@[i - 1]);
            }
        }
        let c = chars[i];
        if slug_char(c) {
            if out.len() > 0 && !slug_char(chars[i - 1]) {
                out.push('-');
            }
            out.push(c);
        }
        i += 1;
    }
    proof {
        assert(chars@.take(chars.len() as int) =~= chars@);
        lemma_slug_shaped(lowered@);
    }
    string_of(&out)
}

/// The slug of a trimmed title whose lower-case form is `lowered`.
pub fn slug_with_lowercase(trimmed_title: &str, lowered: &str) -> (slug: String)
    ensures
        slug@ == slug_for(trimmed_title@, lowered@),
{
    let slug = slug_from_lowercase(lowered);
    if !slug.as_str().is_empty() {
        slug
    } else if trimmed_title.is_empty() {
        String::new()
    } else {
        "untitled".to_owned()
    }
}

/// The slug of a title.
pub fn generate_slug(title: &str) -> (slug: String)
    ensures
        slug@ == slug_of(title@),
{
    let trimmed_title = string_of(&trim(&chars_of(title)));
    let lowered = lowercase(trimmed_title.as_str());
    slug_with_lowercase(trimmed_title.as_str(), lowered.as_str())
}

/// A slug with a number behind it.
pub open spec fn numbered(base: Seq<char>, k: nat) -> Seq<char> {
    base + seq!['-'] + decimal(k)
}

/// Different numbers give different numbered slugs.
pub proof fn lemma_numbered_injective(base: Seq<char>, a: nat, b: nat)
    requires
        numbered(base, a) == numbered(base, b),
    ensures
        a == b,
{
    let x = numbered(base, a);
    let y = numbered(base, b);
    assert(x.skip(base.len() as int + 1) =~= decimal(a));
    assert(y.skip(base.len() as int + 1) =~= decimal(b));
    lemma_decimal_injective(a, b);
}

/// Where all the numbered slugs from 2 up to `m` are taken, there are at
/// least that many ids.
pub proof fn lemma_numbered_fit(base: Seq<char>, existing: Seq<Seq<char>>, m: nat)
    requires
        2 <= m,
        forall|k: nat| 2 <= k < m ==> existing.contains(#[trigger] numbered(base, k)),
    ensures
        m - 2 <= existing.len(),
    decreases m,
{
    if m > 2 {
        let top = numbered(base, (m - 1) as nat);
        assert(existing.contains(top));
        let i = choose|i: int| 0 <= i < existing.len() && existing[i] == top;
        let rest = existing.remove(i);
        assert forall|k: nat| 2 <= k < m - 1 implies rest.contains(#[trigger] numbered(base, k)) by {
            let c = numbered(base, k);
            assert(existing.contains(c));
            let j = choose|j: int| 0 <= j < existing.len() && existing[j] == c;
            if j == i {
                lemma_numbered_injective(base, k, (m - 1) as nat);
            }
            if j < i {
                assert(rest[j] == c);
            } else {
                assert(rest[j - 1] == c);
            }
        }
        lemma_numbered_fit(base, rest, (m - 1) as nat);
    }
}

/// Whether `r` is the free name that `base` leads to among `existing`:
/// `base` itself where it is free, else `base` with the lowest number,
/// from 2 up, that gives a free name.
pub open spec fn is_unique_slug(base: Seq<char>, existing: Seq<Seq<char>>, r: Seq<char>) -> bool {
    if existing.contains(base) {
        exists|k: nat|
            2 <= k && r == #[trigger] numbered(base, k) && !existing.contains(r) && forall|j: nat|
                2 <= j < k ==> existing.contains(#[trigger] numbered(base, j))
    } else {
        r == base
    }
}

/// The free name that a slug leads to among the names that are taken.
pub fn unique_from(base: &str, existing_ids: &Vec<String>) -> (slug: String)
    ensures
        is_unique_slug(base@, views(existing_ids@), slug@),
        !views(existing_ids@).contains(slug@),
{
    if !holds_string(existing_ids, base) {
        return base.to_owned();
    }
    let stem = chars_of(base);
    let count = existing_ids.len();
    let mut counter: u128 = 2;
    loop
        invariant
            count == existing_ids@.len(),
            2 <= counter <= existing_ids@.len() + 2,
            stem@ == base@,
            views(existing_ids@).contains(base@),
            forall|j: nat|
                2 <= j < counter ==> views(existing_ids@).contains(#[trigger] numbered(base@, j)),
        decreases existing_ids@.len() + 2 - counter,
    {
        let mut candidate: Vec<char> = Vec::new();
        extend(&mut candidate, &stem);
        candidate.push('-');
        let digits = to_decimal(counter);
        extend(&mut candidate, &digits);
        assert(candidate@ =~= numbered(base@, counter as nat));
        let text = string_of(&candidate);
        if !holds_string(existing_ids, text.as_str()) {
            return text;
        }
        proof {
            lemma_numbered_fit(base@, views(existing_ids@), (counter + 1) as nat);
        }
        counter += 1;
    }
}

/// A slug for the title that is not among the ids that are taken.
pub fn generate_unique_slug(title: &str, existing_ids: &Vec<String>) -> (slug: String)
    ensures
        is_unique_slug(slug_of(title@), views(existing_ids@), slug@),
        !views(existing_ids@).contains(slug@),
{
    let base = generate_slug(title);
    unique_from(base.as_str(), existing_ids)
}

/// The id that belongs to a slug: the same slug always gives the same id.
pub fn uuid_from_slug(slug: &str) -> (id: String)
    ensures
        id@ == uuid_v5_text(SLUG_NAMESPACE, slug@),
{
    uuid_v5(SLUG_NAMESPACE, slug)
}

/// The slug that a file name stands for: the name itself, since an id
/// cannot be turned back into the slug it was derived from.
pub fn slug_from_uuid_filename(filename: &str) -> (slug: String)
    ensures
        slug@ == filename@,
{
    filename.to_owned()
}

/// Whether a character may not stand in a file name.
pub open spec fn is_unsafe_in_filename(c: char) -> bool {
    c == '/' || c == '\\' || c == ':' || c == '*' || c == '?' || c == '"' || c == '<' || c == '>'
        || c == '|' || is_control(c)
}

/// A title with a hyphen for each character that may not stand in a file
/// name, without the whitespace at its ends.
pub open spec fn sanitized(title: Seq<char>) -> Seq<char> {
    trimmed(
        Seq::new(
            title.len(),
            |i: int|
                if is_unsafe_in_filename(title[i]) {
                    '-'
                } else {
                    title[i]
                },
        ),
    )
}

/// Makes a title safe to use as a file name.
pub fn sanitize_filename(title: &str) -> (name: String)
    ensures
        name@ == sanitized(title@),
{
    let chars = chars_of(title);
    let mut safe: Vec<char> = Vec::new();
    let mut i: usize = 0;
    while i < chars.len()
        invariant
            i <= chars.len(),
            safe@.len() == i,
            forall|j: int|
                0 <= j < i ==> safe@[j] == if is_unsafe_in_filename(chars@[j]) {
                    '-'
                } else {
                    chars@[j]
                },
        decreases chars.len() - i,
    {
        let c = chars[i];
        let bad = c == '/' || c == '\\' || c == ':' || c == '*' || c == '?' || c == '"' || c == '<'
            || c == '>' || c == '|' || control(c);
        safe.push(
            if bad {
                '-'
            } else {
                c
            },
        );
        i += 1;
    }
    assert(safe@ =~= Seq::new(
        title@.len(),
        |i: int|
            if is_unsafe_in_filename(title@[i]) {
                '-'
            } else {
                title@[i]
            },
    ));
    string_of(&trim(&safe))
}

/// The characters that stay when a title becomes the name of an exported
/// file: ASCII letters and digits, whitespace, hyphen and underscore.
pub open spec fn stays_in_export(c: char) -> bool {
    ('a' <= c <= 'z') || ('A' <= c <= 'Z') || ('0' <= c <= '9') || is_whitespace(c) || c == '-'
        || c == '_'
}

/// The characters of a title that stay in an exported file's name.
pub open spec fn export_kept(title: Seq<char>) -> Seq<char> {
    title.filter(|c: char| stays_in_export(c))
}

/// A title before its case is lowered for an exported file's name: what
/// stays of it, trimmed, with a hyphen for each space.
pub open spec fn export_stem(title: Seq<char>) -> Seq<char> {
    replaced(trimmed(export_kept(title)), ' ', '-')
}

/// The name under which a note with this title is exported.
pub open spec fn export_name(title: Seq<char>) -> Seq<char> {
    lowercase_of(export_stem(title))
}

/// A title before its case is lowered for an exported file's name.
pub fn export_stem_of(title: &str) -> (stem: String)
    ensures
        stem@ == export_stem(title@),
{
    let chars = chars_of(title);
    let ghost p = |c: char| stays_in_export(c);
    let mut kept: Vec<char> = Vec::new();
    let mut i: usize = 0;
    proof {
        reveal(Seq::filter);
        assert(chars@.take(0).filter(p) =~= Seq::<char>::empty());
    }
    while i < chars.len()
        invariant
            i <= chars.len(),
            p == (|c: char| stays_in_export(c)),
            kept@ == chars@.take(i as int).filter(p),
        decreases chars.len() - i,
    {
        proof {
            chars@.lemma_take_succ_push(i as int);
            chars@.take(i as int).lemma_filter_push(chars@[i as int], p);
        }
        let c = chars[i];
        if (c >= 'a' && c <= 'z') || (c >= 'A' && c <= 'Z') || (c >= '0' && c <= '9')
            || whitespace(c) || c == '-' || c == '_' {
            kept.push(c);
        }
        i += 1;
    }
    proof {
        chars@.lemma_take_len();
    }
    string_of(&replace_char(&trim(&kept), ' ', '-'))
}

/// The name under which a note with this title is exported.
pub fn export_filename(title: &str) -> (name: String)
    ensures
        name@ == export_name(title@),
{
    let stem = export_stem_of(title);
    lowercase(stem.as_str())
}

} // verus!
