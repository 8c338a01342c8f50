//! The adapter for older automations: template names like `DPAFM - YT`,
//! free-form fields turned into template variables, host path mapping, and
//! the batch limit.
use vstd::prelude::*;
use crate::error::CoverError;
use crate::model::FieldValue;
use crate::strmap::{keys_strictly_sorted, lemma_lookup_push, lemma_sorted_take, lookup, StrMap};
use crate::text::{chars_match_at, chars_of};

verus! {

/// The text a legacy field contributes: a string as it is, null as the empty
/// string, any other JSON value as its JSON text.
pub open spec fn spec_field_text(v: FieldValue) -> Seq<char> {
    match v {
        FieldValue::Text(s) => s@,
        FieldValue::Null => Seq::empty(),
        FieldValue::Json(j) => j@,
    }
}

/// The text of a legacy field (see [`spec_field_text`]).
pub fn value_to_string(v: &FieldValue) -> (r: String)
    ensures
        r@ == spec_field_text(*v),
{
    match v {
        FieldValue::Text(s) => s.clone(),
        FieldValue::Null => String::new(),
        FieldValue::Json(j) => j.clone(),
    }
}

/// The characters of an optional string.
pub open spec fn opt_view(o: Option<String>) -> Option<Seq<char>> {
    match o {
        Some(s) => Some(s@),
        None => None,
    }
}

/// A variable after the background and the fields are set: a field wins,
/// and `background` is the background image otherwise.
pub open spec fn merged_var(bg: Seq<char>, fields: Seq<(Seq<char>, FieldValue)>, k: Seq<char>) -> Option<Seq<char>> {
    match lookup(fields, k) {
        Some(v) => Some(spec_field_text(v)),
        None => if k == "background"@ {
            Some(bg)
        } else {
            None
        },
    }
}

/// A variable after `PodLogo`, when given, is copied to `logo`.
pub open spec fn after_logo(bg: Seq<char>, fields: Seq<(Seq<char>, FieldValue)>, k: Seq<char>) -> Option<Seq<char>> {
    if k == "logo"@ && merged_var(bg, fields, "PodLogo"@) is Some {
        merged_var(bg, fields, "PodLogo"@)
    } else {
        merged_var(bg, fields, k)
    }
}

/// The variables of a legacy request: the background image under
/// `background`, every field by its text, `PodLogo` also as `logo`, and
/// `title_copy`, when given, as `title`.
pub open spec fn legacy_var(bg: Seq<char>, fields: Seq<(Seq<char>, FieldValue)>, k: Seq<char>) -> Option<Seq<char>> {
    if k == "title"@ && after_logo(bg, fields, "title_copy"@) is Some {
        after_logo(bg, fields, "title_copy"@)
    } else {
        after_logo(bg, fields, k)
    }
}

fn copy_of(m: &StrMap<String>, key: &str) -> (r: Option<String>)
    ensures
        opt_view(r) == opt_view(lookup(m@, key@)),
{
    match m.get(key) {
        Some(v) => Some(v.clone()),
        None => None,
    }
}

/// The template variables of a legacy request (see [`legacy_var`]).
pub fn legacy_variables(bg_image: &str, fields: &StrMap<FieldValue>) -> (r: StrMap<String>)
    ensures
        forall|k: Seq<char>| #[trigger] opt_view(lookup(r@, k)) == legacy_var(bg_image@, fields@, k),
{
    let mut vars: StrMap<String> = StrMap::new();
    vars.insert("background".to_owned(), bg_image.to_owned());
    let n = fields.len();
    let mut i: usize = 0;
    while i < n
        invariant
            i <= n,
            n == fields@.len(),
            keys_strictly_sorted(fields@),
            forall|q: Seq<char>| #[trigger] opt_view(lookup(vars@, q)) == merged_var(bg_image@, fields@.take(i as int), q),
        decreases n - i,
    {
        let (k, v) = fields.entry(i);
        let text = value_to_string(v);
        let ghost old_vars = vars@;
        vars.insert(k.clone(), text);
        proof {
            let t = fields@.take(i + 1);
            assert(t =~= fields@.take(i as int).push(fields@[i as int]));
            lemma_sorted_take(fields@, i + 1);
            assert forall|q: Seq<char>| #[trigger] opt_view(lookup(vars@, q)) == merged_var(bg_image@, t, q) by {
                lemma_lookup_push(fields@.take(i as int), fields@[i as int], q);
                if q != k@ {
                    assert(opt_view(lookup(old_vars, q)) == merged_var(bg_image@, fields@.take(i as int), q));
                }
            }
        }
        i += 1;
    }
    assert(fields@.take(n as int) =~= fields@);
    let logo = copy_of(&vars, "PodLogo");
    let ghost v1 = vars@;
    match logo {
        Some(l) => {
            vars.insert("logo".to_owned(), l);
        },
        None => {},
    }
    assert forall|q: Seq<char>| #[trigger] opt_view(lookup(vars@, q)) == after_logo(bg_image@, fields@, q) by {
        assert(opt_view(lookup(v1, q)) == merged_var(bg_image@, fields@, q));
    }
    let title = match copy_of(&vars, "title_copy") {
        Some(t) => Some(t),
        None => copy_of(&vars, "title"),
    };
    let ghost v2 = vars@;
    match title {
        Some(t) => {
            vars.insert("title".to_owned(), t);
        },
        None => {},
    }
    assert forall|q: Seq<char>| #[trigger] opt_view(lookup(vars@, q)) == legacy_var(bg_image@, fields@, q) by {
        assert(opt_view(lookup(v2, q)) == after_logo(bg_image@, fields@, q));
        assert(opt_view(lookup(v2, "title"@)) == after_logo(bg_image@, fields@, "title"@));
        assert(opt_view(lookup(v2, "title_copy"@)) == after_logo(bg_image@, fields@, "title_copy"@));
    }
    vars
}

/// The text of a field, when the request has it.
pub open spec fn field_text_of(fields: Seq<(Seq<char>, FieldValue)>, k: Seq<char>) -> Option<Seq<char>> {
    match lookup(fields, k) {
        Some(v) => Some(spec_field_text(v)),
        None => None,
    }
}

/// What each variable of a legacy request holds: `title` is the `title_copy`
/// field when there is one and the `title` field otherwise; `logo` is the
/// `PodLogo` field when there is one and the `logo` field otherwise;
/// `background` is the `background` field when there is one and the
/// background image otherwise; every other variable is the field of its name.
pub proof fn lemma_legacy_variable_roles(bg: Seq<char>, fields: Seq<(Seq<char>, FieldValue)>, k: Seq<char>)
    ensures
        legacy_var(bg, fields, "title"@) == (if field_text_of(fields, "title_copy"@) is Some {
            field_text_of(fields, "title_copy"@)
        } else {
            field_text_of(fields, "title"@)
        }),
        legacy_var(bg, fields, "logo"@) == (if field_text_of(fields, "PodLogo"@) is Some {
            field_text_of(fields, "PodLogo"@)
        } else {
            field_text_of(fields, "logo"@)
        }),
        legacy_var(bg, fields, "background"@) == (if field_text_of(fields, "background"@) is Some {
            field_text_of(fields, "background"@)
        } else {
            Some(bg)
        }),
        k != "title"@ && k != "logo"@ && k != "background"@ ==> legacy_var(bg, fields, k) == field_text_of(fields, k),
{
    reveal_strlit("title");
    reveal_strlit("title_copy");
    reveal_strlit("logo");
    reveal_strlit("PodLogo");
    reveal_strlit("background");
    assert("title"@.len() != "logo"@.len());
    assert("title_copy"@.len() != "logo"@.len());
    assert("title_copy"@[0] != "background"@[0]);
    assert("title"@.len() != "background"@.len());
    assert("PodLogo"@.len() != "background"@.len());
    assert("logo"@.len() != "background"@.len());
    assert("title_copy"@.len() != "title"@.len());
    assert("PodLogo"@.len() != "logo"@.len());
    assert("PodLogo"@.len() != "title"@.len());
}

/// The path an automation host sees for an output: `/host` in front of
/// paths under `/srv/storage/`, any other path as it is.
pub open spec fn spec_n8n_path(path: Seq<char>) -> Seq<char> {
    if crate::text::starts_with(path, "/srv/storage/"@) {
        "/host"@ + path
    } else {
        path
    }
}

/// Maps an output path to the path the automation host sees.
pub fn n8n_path(path: &str) -> (r: String)
    ensures
        r@ == spec_n8n_path(path@),
{
    let cs = chars_of(path);
    assert(cs@.skip(0) =~= cs@);
    if chars_match_at(&cs, 0, &chars_of("/srv/storage/")) {
        let mut s = "/host".to_owned();
        s.append(path);
        s
    } else {
        path.to_owned()
    }
}

/// The most requests one batch may hold.
pub const MAX_BATCH: usize = 100;

/// Accepts a batch of `n` requests when it holds at most [`MAX_BATCH`].
pub fn check_batch_size(n: usize) -> (r: Result<(), CoverError>)
    ensures
        r is Ok <==> n <= MAX_BATCH,
        r matches Err(e) ==> e == CoverError::BatchTooLarge,
{
    if n > MAX_BATCH {
        Err(CoverError::BatchTooLarge)
    } else {
        Ok(())
    }
}

} // verus!
