//! Decomposition of an instruction's argument tokens: exec or shell form,
//! leading options, and key/value pairs.
use vstd::prelude::*;

use crate::map::KeyValueMap;
use crate::quoter::Quoter;
use crate::render::non_empty;
use crate::text::chars_of;
use crate::text::dequote_spec;
use crate::text::end_without_char;
use crate::text::find_char;
use crate::text::index_of;
use crate::text::leading_char;
use crate::text::string_of_range;
use crate::text::trim_end_char;
use crate::text::trim_start_char;
use crate::text::views;
use crate::text::without;
use crate::text::without_range;

verus! {

/// Whether the tokens form an exec-form (JSON array) list: the first starts
/// with `[` and the last ends with `]`.
pub open spec fn exec_form(args: Seq<Seq<char>>) -> bool {
    &&& args.len() > 0
    &&& args[0].len() > 0
    &&& args[0][0] == '['
    &&& args.last().len() > 0
    &&& args.last().last() == ']'
}

/// Whether the tokens are an exec-form list.
pub fn is_exec_form(arguments: &[String]) -> (r: bool)
    ensures
        r == exec_form(views(arguments@)),
{
    let n = arguments.len();
    if n == 0 {
        return false;
    }
    let first = chars_of(arguments[0].as_str());
    let last = chars_of(arguments[n - 1].as_str());
    first.len() > 0 && first[0] == '[' && last.len() > 0 && last[last.len() - 1] == ']'
}

/// Shell form: each token without double quotes, empty ones dropped.
pub open spec fn shell_form_tokens(args: Seq<Seq<char>>) -> Seq<Seq<char>> {
    non_empty(args.map_values(|a: Seq<char>| without(a, '"')))
}

/// The tokens of a shell-form command: double quotes removed, empty tokens dropped.
pub fn clean_shell_form(arguments: &[String]) -> (r: Vec<String>)
    ensures
        views(r@) == shell_form_tokens(views(arguments@)),
{
    let ghost q = views(arguments@).map_values(|a: Seq<char>| without(a, '"'));
    let mut r: Vec<String> = Vec::new();
    let mut i: usize = 0;
    assert(q.take(0) =~= Seq::<Seq<char>>::empty());
    while i < arguments.len()
        invariant
            i <= arguments@.len(),
            q == views(arguments@).map_values(|a: Seq<char>| without(a, '"')),
            views(r@) == non_empty(q.take(i as int)),
        decreases arguments.len() - i,
    {
        assert(q.take(i + 1).drop_last() =~= q.take(i as int));
        let v = chars_of(arguments[i].as_str());
        let c = without_range(v.as_slice(), 0, v.len(), '"');
        assert(v@.subrange(0, v@.len() as int) =~= v@);
        if c.len() > 0 {
            r.push(crate::text::string_of(c.as_slice()));
            assert(views(r@) =~= non_empty(q.take(i + 1)));
        }
        i += 1;
    }
    assert(q.take(i as int) =~= q);
    r
}

/// `s` without its first character if that is `c`.
pub open spec fn strip_first(s: Seq<char>, c: char) -> Seq<char> {
    if s.len() > 0 && s[0] == c {
        s.drop_first()
    } else {
        s
    }
}

/// `s` without its last character if that is `c`.
pub open spec fn strip_last(s: Seq<char>, c: char) -> Seq<char> {
    if s.len() > 0 && s.last() == c {
        s.drop_last()
    } else {
        s
    }
}

/// One exec-form token cleaned: one leading `[` and the commas after it, one
/// trailing `]` and the commas before it, and every double quote removed.
pub open spec fn exec_token(a: Seq<char>) -> Seq<char> {
    without(
        trim_end_char(strip_last(trim_start_char(strip_first(a, '['), ','), ']'), ','),
        '"',
    )
}

/// Exec form: each token cleaned, empty ones dropped.
pub open spec fn exec_form_tokens(args: Seq<Seq<char>>) -> Seq<Seq<char>> {
    non_empty(args.map_values(|a: Seq<char>| exec_token(a)))
}

/// One exec-form token cleaned.
fn clean_exec_token(v: &[char]) -> (r: Vec<char>)
    ensures
        r@ == exec_token(v@),
{
    let n = v.len();
    let a: usize = if n > 0 && v[0] == '[' {
        1
    } else {
        0
    };
    assert(v@.skip(a as int) == strip_first(v@, '['));
    let tail = crate::text::string_of_range(v, a, n);
    let t = chars_of(tail.as_str());
    assert(t@ == strip_first(v@, '['));
    let b = leading_char(t.as_slice(), ',');
    let m = t.len();
    let e: usize = if m > b && t[m - 1] == ']' {
        m - 1
    } else {
        m
    };
    let ghost s1 = t@.skip(b as int);
    assert(t@.subrange(b as int, e as int) == strip_last(s1, ']'));
    let mid = string_of_range(t.as_slice(), b, e);
    let u = chars_of(mid.as_str());
    let f = end_without_char(u.as_slice(), u.len(), ',');
    assert(u@.take(u@.len() as int) =~= u@);
    let r = without_range(u.as_slice(), 0, f, '"');
    assert(u@.subrange(0, f as int) =~= u@.take(f as int));
    r
}

/// The items of an exec-form list: brackets, separating commas and double
/// quotes removed, empty tokens dropped.
pub fn clean_exec_form(arguments: &[String]) -> (r: Vec<String>)
    ensures
        views(r@) == exec_form_tokens(views(arguments@)),
{
    let ghost q = views(arguments@).map_values(|a: Seq<char>| exec_token(a));
    let mut r: Vec<String> = Vec::new();
    let mut i: usize = 0;
    assert(q.take(0) =~= Seq::<Seq<char>>::empty());
    while i < arguments.len()
        invariant
            i <= arguments@.len(),
            q == views(arguments@).map_values(|a: Seq<char>| exec_token(a)),
            views(r@) == non_empty(q.take(i as int)),
        decreases arguments.len() - i,
    {
        assert(q.take(i + 1).drop_last() =~= q.take(i as int));
        let v = chars_of(arguments[i].as_str());
        let c = clean_exec_token(v.as_slice());
        if c.len() > 0 {
            r.push(crate::text::string_of(c.as_slice()));
            assert(views(r@) =~= non_empty(q.take(i + 1)));
        }
        i += 1;
    }
    assert(q.take(i as int) =~= q);
    r
}

/// Whether a token is an option: it starts with `--`.
pub open spec fn is_option(t: Seq<char>) -> bool {
    t.len() >= 2 && t[0] == '-' && t[1] == '-'
}

/// The number of leading tokens that are options.
pub open spec fn option_count(args: Seq<Seq<char>>) -> nat
    decreases args.len(),
{
    if args.len() > 0 && is_option(args[0]) {
        1 + option_count(args.drop_first())
    } else {
        0
    }
}

/// The name of an option token: what follows `--`, up to the first `=`.
pub open spec fn option_key(t: Seq<char>) -> Seq<char> {
    let s = t.skip(2);
    if index_of(s, '=') >= 0 {
        s.take(index_of(s, '='))
    } else {
        s
    }
}

/// The value of an option token: what follows the first `=`, or empty for a bare flag.
pub open spec fn option_value(t: Seq<char>) -> Seq<char> {
    let s = t.skip(2);
    if index_of(s, '=') >= 0 {
        s.skip(index_of(s, '=') + 1)
    } else {
        Seq::empty()
    }
}

/// The options that the tokens set, a later one replacing an earlier one of the same name.
pub open spec fn options_of(opts: Seq<Seq<char>>) -> Map<Seq<char>, Seq<char>>
    decreases opts.len(),
{
    if opts.len() == 0 {
        Map::empty()
    } else {
        options_of(opts.drop_last()).insert(option_key(opts.last()), option_value(opts.last()))
    }
}

pub(crate) proof fn lemma_option_count(args: Seq<Seq<char>>, i: int)
    requires
        0 <= i <= args.len(),
        forall|j: int| 0 <= j < i ==> is_option(#[trigger] args[j]),
    ensures
        option_count(args) == i + option_count(args.skip(i)),
    decreases i,
{
    if i > 0 {
        assert forall|j: int| 0 <= j < i - 1 implies is_option(#[trigger] args.drop_first()[j]) by {
            assert(is_option(args[j + 1]));
        }
        lemma_option_count(args.drop_first(), i - 1);
        assert(args.drop_first().skip(i - 1) =~= args.skip(i));
    } else {
        assert(args.skip(0) =~= args);
    }
}

/// The part of `v` before its first `=` and the part after it, or `v` and
/// nothing when it has none.
fn split_at_equals(v: &[char], from: usize) -> (r: (String, Option<String>))
    requires
        from <= v@.len(),
    ensures
        index_of(v@.skip(from as int), '=') >= 0 ==> r.0@ == v@.skip(from as int).take(
            index_of(v@.skip(from as int), '='),
        ) && (r.1 matches Some(x) && x@ == v@.skip(from as int).skip(
            index_of(v@.skip(from as int), '=') + 1,
        )),
        index_of(v@.skip(from as int), '=') < 0 ==> r.0@ == v@.skip(from as int) && r.1 is None,
{
    let ghost s = v@.skip(from as int);
    let rest = string_of_range(v, from, v.len());
    let t = chars_of(rest.as_str());
    assert(t@ == s);
    proof {
        crate::text::lemma_index_of(s, '=');
    }
    match find_char(t.as_slice(), '=') {
        Some(i) => {
            let key = string_of_range(t.as_slice(), 0, i);
            let value = string_of_range(t.as_slice(), i + 1, t.len());
            assert(s.take(i as int) =~= t@.subrange(0, i as int));
            assert(s.skip(i + 1) =~= t@.subrange(i + 1, t@.len() as int));
            (key, Some(value))
        },
        None => (rest, None),
    }
}

/// Takes the leading options off the tokens: their names and values, and the tokens after them.
pub fn get_options_from(arguments: &[String]) -> (r: (KeyValueMap<String>, Vec<String>))
    ensures
        r.0@ == options_of(views(arguments@).take(option_count(views(arguments@)) as int)),
        views(r.1@) == views(arguments@).skip(option_count(views(arguments@)) as int),
{
    let ghost a = views(arguments@);
    let mut options: KeyValueMap<String> = KeyValueMap::new();
    let mut i: usize = 0;
    assert(a.take(0) =~= Seq::<Seq<char>>::empty());
    while i < arguments.len()
        invariant
            i <= arguments@.len(),
            a == views(arguments@),
            forall|j: int| 0 <= j < i ==> is_option(#[trigger] a[j]),
            options@ == options_of(a.take(i as int)),
        ensures
            i <= arguments@.len(),
            forall|j: int| 0 <= j < i ==> is_option(#[trigger] a[j]),
            options@ == options_of(a.take(i as int)),
            i == arguments@.len() || !is_option(a[i as int]),
        decreases arguments.len() - i,
    {
        let v = chars_of(arguments[i].as_str());
        if !(v.len() >= 2 && v[0] == '-' && v[1] == '-') {
            break;
        }
        let (key, value) = split_at_equals(v.as_slice(), 2);
        let value = match value {
            Some(x) => x,
            None => String::new(),
        };
        assert(a.take(i + 1).drop_last() =~= a.take(i as int));
        options.insert(key, value);
        i += 1;
    }
    proof {
        lemma_option_count(a, i as int);
        assert(option_count(a.skip(i as int)) == 0);
    }
    let mut remaining: Vec<String> = Vec::new();
    let mut j: usize = i;
    while j < arguments.len()
        invariant
            i <= j <= arguments@.len(),
            a == views(arguments@),
            views(remaining@) == a.subrange(i as int, j as int),
        decreases arguments.len() - j,
    {
        let x = arguments[j].clone();
        let ghost before = views(remaining@);
        remaining.push(x);
        assert(views(remaining@) =~= before.push(a[j as int]));
        j += 1;
        assert(views(remaining@) =~= a.subrange(i as int, j as int));
    }
    assert(a.subrange(i as int, j as int) =~= a.skip(i as int));
    (options, remaining)
}

/// The entries that `ENV`/`LABEL` tokens give so far, and the key that a
/// token without `=` continues.
pub open spec fn pairs_state(toks: Seq<Seq<char>>) -> (Map<Seq<char>, Seq<char>>, Option<Seq<char>>)
    decreases toks.len(),
{
    if toks.len() == 0 {
        (Map::empty(), None)
    } else {
        let (m, last) = pairs_state(toks.drop_last());
        let t = toks.last();
        let i = index_of(t, '=');
        if i >= 0 {
            (m.insert(t.take(i), dequote_spec(t.skip(i + 1))), Some(t.take(i)))
        } else {
            match last {
                Some(k) => (m.insert(k, dequote_spec(m[k] + seq![' '] + t)), Some(k)),
                None => (m, None),
            }
        }
    }
}

/// The key/value map of `ENV`/`LABEL` tokens: `key=value` starts an entry,
/// a token without `=` continues the value of the entry before it.
pub open spec fn key_value_pairs(toks: Seq<Seq<char>>) -> Map<Seq<char>, Seq<char>> {
    pairs_state(toks).0
}

/// Pairs `key=value` tokens into a map; a token without `=` continues the value before it.
pub fn process_key_value_pairs(arguments: &[String]) -> (r: KeyValueMap<String>)
    ensures
        r@ == key_value_pairs(views(arguments@)),
{
    let ghost a = views(arguments@);
    let mut result: KeyValueMap<String> = KeyValueMap::new();
    let mut last_key: Option<String> = None;
    let mut i: usize = 0;
    assert(a.take(0) =~= Seq::<Seq<char>>::empty());
    while i < arguments.len()
        invariant
            i <= arguments@.len(),
            a == views(arguments@),
            result@ == pairs_state(a.take(i as int)).0,
            opt_key(last_key) == pairs_state(a.take(i as int)).1,
            last_key matches Some(k) ==> result@.contains_key(k@),
        decreases arguments.len() - i,
    {
        assert(a.take(i + 1).drop_last() =~= a.take(i as int));
        assert(a.take(i + 1).last() == a[i as int]);
        let v = chars_of(arguments[i].as_str());
        let (key, value) = split_at_equals(v.as_slice(), 0);
        assert(v@.skip(0) =~= v@);
        match value {
            Some(value) => {
                let value = value.dequote();
                let k2 = key.clone();
                result.insert(key, value);
                last_key = Some(k2);
            },
            None => {
                match last_key {
                    Some(k) => {
                        let joined = match result.get(k.as_str()) {
                            Some(prev) => {
                                let mut joined = prev.clone();
                                joined.push(' ');
                                crate::text::push_all(&mut joined, arguments[i].as_str());
                                assert(joined@ =~= result@[k@] + seq![' '] + a[i as int]);
                                joined
                            },
                            None => String::new(),
                        };
                        let value = joined.dequote();
                        let k2 = k.clone();
                        result.insert(k, value);
                        last_key = Some(k2);
                    },
                    None => {
                        last_key = None;
                    },
                }
            },
        }
        i += 1;
    }
    assert(a.take(i as int) =~= a);
    result
}

/// The view of an optional key.
pub open spec fn opt_key(k: Option<String>) -> Option<Seq<char>> {
    match k {
        Some(s) => Some(s@),
        None => None,
    }
}

/// The entries of `ARG` tokens: `name=default` or a bare `name` without a default.
pub open spec fn optional_pairs(toks: Seq<Seq<char>>) -> Map<Seq<char>, Option<Seq<char>>>
    decreases toks.len(),
{
    if toks.len() == 0 {
        Map::empty()
    } else {
        let t = toks.last();
        let i = index_of(t, '=');
        if i >= 0 {
            optional_pairs(toks.drop_last()).insert(t.take(i), Some(dequote_spec(t.skip(i + 1))))
        } else {
            optional_pairs(toks.drop_last()).insert(t, None)
        }
    }
}

/// Pairs `name=default` and bare `name` tokens into a map.
pub fn process_optional_key_value_pairs(arguments: &[String]) -> (r: KeyValueMap<Option<String>>)
    ensures
        r@ == optional_pairs(views(arguments@)),
{
    let ghost a = views(arguments@);
    let mut result: KeyValueMap<Option<String>> = KeyValueMap::new();
    let mut i: usize = 0;
    assert(a.take(0) =~= Seq::<Seq<char>>::empty());
    while i < arguments.len()
        invariant
            i <= arguments@.len(),
            a == views(arguments@),
            result@ == optional_pairs(a.take(i as int)),
        decreases arguments.len() - i,
    {
        assert(a.take(i + 1).drop_last() =~= a.take(i as int));
        assert(a.take(i + 1).last() == a[i as int]);
        let v = chars_of(arguments[i].as_str());
        let (key, value) = split_at_equals(v.as_slice(), 0);
        assert(v@.skip(0) =~= v@);
        match value {
            Some(value) => {
                let value = value.dequote();
                result.insert(key, Some(value));
            },
            None => {
                result.insert(key, None);
            },
        }
        i += 1;
    }
    assert(a.take(i as int) =~= a);
    result
}

/// The key of a `key=value` token.
pub open spec fn pair_key(t: Seq<char>) -> Seq<char> {
    t.take(index_of(t, '='))
}

/// The value of a `key=value` token, before dequoting.
pub open spec fn pair_value(t: Seq<char>) -> Seq<char> {
    t.skip(index_of(t, '=') + 1)
}

/// Whether every token is `key=value` and no two tokens have the same key.
pub open spec fn distinct_pairs(toks: Seq<Seq<char>>) -> bool {
    &&& forall|i: int| 0 <= i < toks.len() ==> index_of(#[trigger] toks[i], '=') >= 0
    &&& forall|i: int, j: int|
        0 <= i < toks.len() && 0 <= j < toks.len() && i != j ==> pair_key(#[trigger] toks[i])
            != pair_key(#[trigger] toks[j])
}

/// With `key=value` tokens of distinct keys, the map holds exactly their keys,
/// each with its own dequoted value.
pub proof fn lemma_distinct_pairs(toks: Seq<Seq<char>>)
    requires
        distinct_pairs(toks),
    ensures
        forall|i: int|
            0 <= i < toks.len() ==> key_value_pairs(toks).contains_key(pair_key(#[trigger] toks[i]))
                && key_value_pairs(toks)[pair_key(toks[i])] == dequote_spec(pair_value(toks[i])),
        forall|k: Seq<char>|
            #[trigger] key_value_pairs(toks).contains_key(k) ==> exists|i: int|
                0 <= i < toks.len() && pair_key(toks[i]) == k,
    decreases toks.len(),
{
    if toks.len() > 0 {
        let init = toks.drop_last();
        assert forall|i: int| 0 <= i < init.len() implies index_of(#[trigger] init[i], '=') >= 0 by {
            assert(init[i] == toks[i]);
        }
        assert forall|i: int, j: int|
            0 <= i < init.len() && 0 <= j < init.len() && i != j implies pair_key(#[trigger] init[i])
            != pair_key(#[trigger] init[j]) by {
            assert(init[i] == toks[i] && init[j] == toks[j]);
        }
        lemma_distinct_pairs(init);
        let n = toks.len() - 1;
        assert(index_of(toks[n], '=') >= 0);
        assert forall|i: int|
            0 <= i < toks.len() implies key_value_pairs(toks).contains_key(pair_key(#[trigger] toks[i]))
            && key_value_pairs(toks)[pair_key(toks[i])] == dequote_spec(pair_value(toks[i])) by {
            if i < n {
                assert(init[i] == toks[i]);
                assert(pair_key(toks[i]) != pair_key(toks[n]));
            }
        }
        assert forall|k: Seq<char>| #[trigger] key_value_pairs(toks).contains_key(k) implies exists|i: int|
            0 <= i < toks.len() && pair_key(toks[i]) == k by {
            if k != pair_key(toks[n]) {
                assert(key_value_pairs(init).contains_key(k));
                let i = choose|i: int| 0 <= i < init.len() && pair_key(init[i]) == k;
                assert(toks[i] == init[i]);
            }
        }
    }
}

/// The map of `key=value` tokens with distinct keys does not depend on their order.
pub proof fn lemma_pairs_order_free(a: Seq<Seq<char>>, b: Seq<Seq<char>>)
    requires
        distinct_pairs(a),
        distinct_pairs(b),
        forall|t: Seq<char>| a.contains(t) <==> b.contains(t),
    ensures
        key_value_pairs(a) == key_value_pairs(b),
{
    lemma_distinct_pairs(a);
    lemma_distinct_pairs(b);
    let ma = key_value_pairs(a);
    let mb = key_value_pairs(b);
    assert forall|k: Seq<char>| ma.contains_key(k) implies mb.contains_key(k) && mb[k] == ma[k] by {
        let i = choose|i: int| 0 <= i < a.len() && pair_key(a[i]) == k;
        assert(a.contains(a[i]));
        let j = choose|j: int| 0 <= j < b.len() && b[j] == a[i];
        assert(pair_key(b[j]) == k);
    }
    assert forall|k: Seq<char>| mb.contains_key(k) implies ma.contains_key(k) by {
        let j = choose|j: int| 0 <= j < b.len() && pair_key(b[j]) == k;
        assert(b.contains(b[j]));
        let i = choose|i: int| 0 <= i < a.len() && a[i] == b[j];
        assert(pair_key(a[i]) == k);
    }
    assert(ma =~= mb);
}

} // verus!
