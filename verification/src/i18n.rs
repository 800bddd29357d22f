//! The two wordings of user-facing text, and the choice between them.
//!
//! The language is a value that the caller keeps (the app keeps it for the
//! whole process). It starts as `Lang::default()`, which is Chinese, and
//! stays so until the interface reports its tag.
use vstd::prelude::*;

use crate::text::{chars_of, lowercase, starts_with, string_of, trim, trim_range, to_ascii_lower};

verus! {

broadcast use vstd::string::group_string_axioms;

/// The two languages in which text is written.
#[derive(Clone, Copy, Debug, PartialEq, Eq, Structural)]
pub enum Lang {
    Zh,
    En,
}

/// The language in force before any tag is reported: Chinese.
impl Default for Lang {
    fn default() -> (r: Lang)
        ensures
            r == Lang::Zh,
    {
        Lang::Zh
    }
}

/// The language that a tag such as `zh-CN` or `en-GB` selects: Chinese when
/// the trimmed tag starts with `zh` in any ASCII case, English otherwise.
pub open spec fn lang_of_tag(tag: Seq<char>) -> Lang {
    if starts_with(lowercase(trim(tag)), "zh"@) {
        Lang::Zh
    } else {
        Lang::En
    }
}

/// Sets the language from the tag reported at start-up (`zh-CN`, `en-GB`).
pub fn set_from_tag(lang: &mut Lang, tag: &str)
    ensures
        *final(lang) == lang_of_tag(tag@),
{
    let v = chars_of(tag);
    let (a, b) = trim_range(&v, 0, v.len());
    let ghost tr = v@.subrange(a as int, b as int);
    proof {
        reveal_strlit("zh");
    }
    let zh = b - a >= 2 && to_ascii_lower(v[a]) == 'z' && to_ascii_lower(v[a + 1]) == 'h';
    assert(v@.subrange(0, v.len() as int) =~= v@);
    if zh {
        assert(lowercase(tr).take(2) =~= "zh"@);
    } else {
        assert(!starts_with(lowercase(tr), "zh"@)) by {
            if starts_with(lowercase(tr), "zh"@) {
                assert(lowercase(tr).take(2)[0] == lowercase(tr)[0]);
                assert(lowercase(tr).take(2)[1] == lowercase(tr)[1]);
            }
        }
    }
    *lang = if zh {
        Lang::Zh
    } else {
        Lang::En
    };
}

/// Picks the wording of one sentence for the language.
pub fn t(lang: Lang, zh: &'static str, en: &'static str) -> (r: &'static str)
    ensures
        r == (if lang == Lang::En {
            en
        } else {
            zh
        }),
{
    match lang {
        Lang::En => en,
        Lang::Zh => zh,
    }
}

/// A string with no character left after trimming white space.
pub open spec fn is_blank(s: Seq<char>) -> bool {
    trim(s).len() == 0
}

/// The language tag in force: the first of the explicit `--lang`, `LC_ALL`,
/// `LANG` and the system locale that is present and not blank, else `zh`.
pub open spec fn resolve_tag_spec(
    explicit: Option<Seq<char>>,
    lc_all: Option<Seq<char>>,
    lang: Option<Seq<char>>,
    system: Option<Seq<char>>,
) -> Seq<char> {
    if explicit is Some && !is_blank(explicit->0) {
        explicit->0
    } else if lc_all is Some && !is_blank(lc_all->0) {
        lc_all->0
    } else if lang is Some && !is_blank(lang->0) {
        lang->0
    } else if system is Some && !is_blank(system->0) {
        system->0
    } else {
        "zh"@
    }
}

pub open spec fn opt_view(o: Option<String>) -> Option<Seq<char>> {
    match o {
        Some(s) => Some(s@),
        None => None,
    }
}

pub open spec fn opt_str_view(o: Option<&str>) -> Option<Seq<char>> {
    match o {
        Some(s) => Some(s@),
        None => None,
    }
}

fn blank(s: &str) -> (b: bool)
    ensures
        b == is_blank(s@),
{
    let v = chars_of(s);
    let (a, b) = trim_range(&v, 0, v.len());
    assert(v@.subrange(0, v.len() as int) =~= v@);
    a == b
}

/// The priority of the four sources of the language tag. The values come in
/// as arguments so that each rule can be checked on its own.
pub fn resolve_tag(
    explicit: Option<&str>,
    lc_all: Option<String>,
    lang: Option<String>,
    system: Option<String>,
) -> (r: String)
    ensures
        r@ == resolve_tag_spec(
            opt_str_view(explicit),
            opt_view(lc_all),
            opt_view(lang),
            opt_view(system),
        ),
{
    if let Some(e) = explicit {
        if !blank(e) {
            return e.to_string();
        }
    }
    if let Some(s) = lc_all {
        if !blank(s.as_str()) {
            return s;
        }
    }
    if let Some(s) = lang {
        if !blank(s.as_str()) {
            return s;
        }
    }
    if let Some(s) = system {
        if !blank(s.as_str()) {
            return s;
        }
    }
    "zh".to_string()
}

/// The value given to `--lang` among the arguments that follow the program
/// name: `--lang=<v>`, or `--lang` followed by the next argument.
pub open spec fn lang_arg(rest: Seq<Seq<char>>) -> Option<Seq<char>>
    decreases rest.len(),
{
    if rest.len() == 0 {
        None
    } else if starts_with(rest[0], "--lang="@) {
        Some(rest[0].skip(7))
    } else if rest[0] == "--lang"@ {
        if rest.len() > 1 {
            Some(rest[1])
        } else {
            None
        }
    } else {
        lang_arg(rest.drop_first())
    }
}

pub open spec fn args_view(args: Seq<String>) -> Seq<Seq<char>> {
    args.map_values(|s: String| s@)
}

/// `--lang` read from the raw command line (the program name first), before
/// the argument parser renders help in the chosen language.
pub fn lang_from_args(args: &Vec<String>) -> (r: Option<String>)
    ensures
        opt_view(r) == (if args.len() == 0 {
            None
        } else {
            lang_arg(args_view(args@).drop_first())
        }),
{
    if args.len() == 0 {
        return None;
    }
    let ghost all = args_view(args@);
    let prefix = chars_of("--lang=");
    let flag = chars_of("--lang");
    proof {
        reveal_strlit("--lang=");
    }
    let mut i: usize = 1;
    while i < args.len()
        invariant
            1 <= i <= args.len(),
            all == args_view(args@),
            prefix@ == "--lang="@,
            flag@ == "--lang"@,
            "--lang="@.len() == 7,
            lang_arg(all.drop_first()) == lang_arg(all.skip(i as int)),
        decreases args.len() - i,
    {
        let a = chars_of(args[i].as_str());
        let ghost rest = all.skip(i as int);
        assert(rest[0] == a@);
        if a.len() >= prefix.len() && crate::text::eq_range(&a, 0, prefix.len(), &prefix) {
            assert(a@.take(7) =~= a@.subrange(0, 7));
            let mut w: Vec<char> = Vec::new();
            crate::text::push_range(&mut w, &a, prefix.len(), a.len());
            assert(w@ =~= a@.skip(7));
            return Some(string_of(&w));
        }
        assert(!starts_with(a@, "--lang="@)) by {
            if starts_with(a@, "--lang="@) {
                assert(a@.take(7) =~= a@.subrange(0, 7));
            }
        }
        if crate::text::eq_range(&a, 0, a.len(), &flag) {
            assert(a@.subrange(0, a.len() as int) =~= a@);
            if i + 1 < args.len() {
                assert(rest[1] == args@[i + 1]@);
                return Some(args[i + 1].clone());
            }
            return None;
        }
        assert(a@.subrange(0, a.len() as int) =~= a@);
        assert(rest.drop_first() =~= all.skip(i + 1));
        i = i + 1;
    }
    None
}

/// Law of the language tag: Chinese exactly when the tag, trimmed of white
/// space, begins with a `z` and an `h` in any ASCII case (`zh`, `ZH`,
/// `zh-CN`, `Zh_TW`), English for every other tag; nothing beyond those two
/// characters counts.
pub proof fn law_lang_of_tag(tag: Seq<char>)
    ensures
        lang_of_tag(tag) == Lang::Zh <==> ({
            let t = trim(tag);
            t.len() >= 2 && crate::text::ascii_lower(t[0]) == 'z' && crate::text::ascii_lower(t[1])
                == 'h'
        }),
{
    reveal_strlit("zh");
    let t = trim(tag);
    let l = lowercase(t);
    assert(l.len() == t.len());
    if t.len() >= 2 {
        assert(l[0] == crate::text::ascii_lower(t[0]));
        assert(l[1] == crate::text::ascii_lower(t[1]));
        if l[0] == 'z' && l[1] == 'h' {
            assert(l.take(2) =~= "zh"@);
        }
        if starts_with(l, "zh"@) {
            assert(l.take(2)[0] == l[0]);
            assert(l.take(2)[1] == l[1]);
        }
    }
}

} // verus!
