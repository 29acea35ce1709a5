use vstd::prelude::*;
use crate::digits::{
    is_digit_char, digit_val, all_digits, digits_val, render_nat, lemma_render_nat, digit_char,
    lemma_digits_val_prefix_le,
};
use crate::package::{
    DepModel, PackageFileModel, PackageEntryModel, Dependency, PackageFile, PackageEntry,
    Packages, names_unique, unique_names,
};
use crate::repo::Repo;
use vstd::string::{StrSliceExecFns, StringExecFns};
use vstd::arithmetic::div_mod::lemma_fundamental_div_mod;

verus! {

// The persisted registry, the catalog resource, the manifest file and the
// configuration all use one framing: a field is its length in decimal digits, a `:`, then exactly
// that many characters; a count is decimal digits followed by `;`. A record
// is a fixed sequence of fields with one counted list inside. The framing
// needs no escaping and decodes unambiguously.

/// How many leading characters of `s` are decimal digits.
pub open spec fn digits_end(s: Seq<char>) -> int
    decreases s.len(),
{
    if s.len() == 0 {
        0
    } else if !is_digit_char(s[0]) {
        0
    } else {
        1 + digits_end(s.drop_first())
    }
}

pub proof fn lemma_digits_end(s: Seq<char>)
    ensures
        0 <= digits_end(s) <= s.len(),
        forall|i: int| 0 <= i < digits_end(s) ==> is_digit_char(#[trigger] s[i]),
        digits_end(s) < s.len() ==> !is_digit_char(s[digits_end(s)]),
    decreases s.len(),
{
    if s.len() > 0 && is_digit_char(s[0]) {
        let t = s.drop_first();
        lemma_digits_end(t);
        assert(forall|i: int| 0 <= i < t.len() ==> #[trigger] t[i] == s[i + 1]);
        assert forall|i: int| 0 <= i < digits_end(s) implies is_digit_char(#[trigger] s[i]) by {
            if i > 0 {
                assert(t[i - 1] == s[i]);
            }
        }
    }
}

pub proof fn lemma_digits_end_at(s: Seq<char>, k: int)
    requires
        0 <= k <= s.len(),
        forall|i: int| 0 <= i < k ==> is_digit_char(#[trigger] s[i]),
        k == s.len() || !is_digit_char(s[k]),
    ensures
        digits_end(s) == k,
{
    lemma_digits_end(s);
}

/// `digits_end` of digits followed by a non-digit is the digit count.
pub proof fn lemma_digits_end_concat(d: Seq<char>, t: Seq<char>)
    requires
        all_digits(d),
        t.len() > 0,
        !is_digit_char(t[0]),
    ensures
        digits_end(d + t) == d.len(),
{
    let s = d + t;
    assert(forall|i: int| 0 <= i < d.len() ==> #[trigger] s[i] == d[i]);
    assert(s[d.len() as int] == t[0]);
    lemma_digits_end_at(s, d.len() as int);
}

/// A length-prefixed field: the length in decimal, `:`, then the payload.
pub open spec fn enc_field(v: Seq<char>) -> Seq<char> {
    render_nat(v.len()) + seq![':'] + v
}

/// Parse one field; the result is the payload and the remaining input.
pub open spec fn dec_field(s: Seq<char>) -> Option<(Seq<char>, Seq<char>)> {
    let e = digits_end(s);
    if e == 0 || e >= s.len() || s[e] != ':' {
        None
    } else {
        let n = digits_val(s.take(e));
        let body = s.skip(e + 1);
        if body.len() < n {
            None
        } else {
            Some((body.take(n as int), body.skip(n as int)))
        }
    }
}

/// A count: decimal digits followed by `;`.
pub open spec fn enc_num(n: nat) -> Seq<char> {
    render_nat(n) + seq![';']
}

pub open spec fn dec_num(s: Seq<char>) -> Option<(nat, Seq<char>)> {
    let e = digits_end(s);
    if e == 0 || e >= s.len() || s[e] != ';' {
        None
    } else {
        Some((digits_val(s.take(e)), s.skip(e + 1)))
    }
}

pub proof fn lemma_dec_enc_field(v: Seq<char>, rest: Seq<char>)
    ensures
        dec_field(enc_field(v) + rest) == Some((v, rest)),
{
    let r = render_nat(v.len());
    lemma_render_nat(v.len());
    let s = enc_field(v) + rest;
    let tail = seq![':'] + v + rest;
    assert(s =~= r + tail);
    assert(tail[0] == ':');
    assert(!is_digit_char(':'));
    lemma_digits_end_concat(r, tail);
    let e = digits_end(s);
    assert(e == r.len());
    assert(s.take(e) =~= r);
    assert(digits_val(s.take(e)) == v.len());
    assert(s[e] == tail[0]);
    let body = s.skip(e + 1);
    assert(body =~= v + rest);
    assert(body.take(v.len() as int) =~= v);
    assert(body.skip(v.len() as int) =~= rest);
}

pub proof fn lemma_dec_enc_num(n: nat, rest: Seq<char>)
    ensures
        dec_num(enc_num(n) + rest) == Some((n, rest)),
{
    let r = render_nat(n);
    lemma_render_nat(n);
    let s = enc_num(n) + rest;
    let tail = seq![';'] + rest;
    assert(s =~= r + tail);
    assert(tail[0] == ';');
    assert(!is_digit_char(';'));
    lemma_digits_end_concat(r, tail);
    let e = digits_end(s);
    assert(e == r.len());
    assert(s.take(e) =~= r);
    assert(digits_val(s.take(e)) == n);
    assert(s[e] == tail[0]);
    assert(s.skip(e + 1) =~= rest);
}

/// One dependency: its name, then its minimum version.
pub open spec fn enc_dep(d: DepModel) -> Seq<char> {
    enc_field(d.name) + enc_field(d.min_version)
}

pub open spec fn dec_dep(s: Seq<char>) -> Option<(DepModel, Seq<char>)> {
    match dec_field(s) {
        Option::None => Option::None,
        Option::Some((name, s1)) => match dec_field(s1) {
            Option::None => Option::None,
            Option::Some((mv, s2)) => Option::Some(
                (DepModel { name: name, min_version: mv }, s2),
            ),
        },
    }
}

pub proof fn lemma_dec_enc_dep(d: DepModel, rest: Seq<char>)
    ensures
        dec_dep(enc_dep(d) + rest) == Some((d, rest)),
{
    assert(enc_dep(d) + rest =~= enc_field(d.name) + (enc_field(d.min_version) + rest));
    lemma_dec_enc_field(d.name, enc_field(d.min_version) + rest);
    lemma_dec_enc_field(d.min_version, rest);
}

/// A dependency list, first to last.
pub open spec fn enc_deps(deps: Seq<DepModel>) -> Seq<char>
    decreases deps.len(),
{
    if deps.len() == 0 {
        Seq::empty()
    } else {
        enc_dep(deps[0]) + enc_deps(deps.drop_first())
    }
}

pub open spec fn dec_deps(s: Seq<char>, n: nat) -> Option<(Seq<DepModel>, Seq<char>)>
    decreases n,
{
    if n == 0 {
        Some((Seq::empty(), s))
    } else {
        match dec_dep(s) {
            Option::None => Option::None,
            Option::Some((d, s1)) => match dec_deps(s1, (n - 1) as nat) {
                Option::None => Option::None,
                Option::Some((ds, s2)) => Option::Some((seq![d] + ds, s2)),
            },
        }
    }
}

#[verifier::rlimit(60)]
pub proof fn lemma_dec_enc_deps(deps: Seq<DepModel>, rest: Seq<char>)
    ensures
        dec_deps(enc_deps(deps) + rest, deps.len()) == Some((deps, rest)),
    decreases deps.len(),
{
    if deps.len() == 0 {
        assert(enc_deps(deps) + rest =~= rest);
        assert(dec_deps(rest, 0) == Some((Seq::<DepModel>::empty(), rest)));
        assert(deps =~= Seq::<DepModel>::empty());
    } else {
        let d0 = deps[0];
        let dt = deps.drop_first();
        assert(enc_deps(deps) + rest =~= enc_dep(d0) + (enc_deps(dt) + rest));
        lemma_dec_enc_dep(d0, enc_deps(dt) + rest);
        lemma_dec_enc_deps(dt, rest);
        assert(seq![d0] + dt =~= deps);
    }
}

/// A manifest record: name, version, the counted dependency list, checksum.
pub open spec fn enc_pf(m: PackageFileModel) -> Seq<char> {
    enc_field(m.name) + enc_field(m.version) + enc_num(m.dependencies.len()) + enc_deps(
        m.dependencies,
    ) + enc_field(m.checksum)
}

pub open spec fn dec_pf(s: Seq<char>) -> Option<(PackageFileModel, Seq<char>)> {
    match dec_field(s) {
        Option::None => Option::None,
        Option::Some((name, s1)) => match dec_field(s1) {
            Option::None => Option::None,
            Option::Some((version, s2)) => match dec_num(s2) {
                Option::None => Option::None,
                Option::Some((k, s3)) => match dec_deps(s3, k) {
                    Option::None => Option::None,
                    Option::Some((deps, s4)) => match dec_field(s4) {
                        Option::None => Option::None,
                        Option::Some((checksum, s5)) => Option::Some(
                            (
                                PackageFileModel {
                                    name: name,
                                    version: version,
                                    dependencies: deps,
                                    checksum: checksum,
                                },
                                s5,
                            ),
                        ),
                    },
                },
            },
        },
    }
}

pub proof fn lemma_dec_enc_pf(m: PackageFileModel, rest: Seq<char>)
    ensures
        dec_pf(enc_pf(m) + rest) == Some((m, rest)),
{
    let f1 = enc_field(m.name);
    let f2 = enc_field(m.version);
    let f3 = enc_num(m.dependencies.len());
    let f4 = enc_deps(m.dependencies);
    let f5 = enc_field(m.checksum);
    let s = enc_pf(m) + rest;
    assert(s =~= f1 + (f2 + (f3 + (f4 + (f5 + rest)))));
    lemma_dec_enc_field(m.name, f2 + (f3 + (f4 + (f5 + rest))));
    lemma_dec_enc_field(m.version, f3 + (f4 + (f5 + rest)));
    lemma_dec_enc_num(m.dependencies.len(), f4 + (f5 + rest));
    lemma_dec_enc_deps(m.dependencies, f5 + rest);
    lemma_dec_enc_field(m.checksum, rest);
}

/// One named entry: the key, then the manifest stored under it.
pub open spec fn enc_entry(e: PackageEntryModel) -> Seq<char> {
    enc_field(e.name) + enc_pf(e.file)
}

pub open spec fn dec_entry(s: Seq<char>) -> Option<(PackageEntryModel, Seq<char>)> {
    match dec_field(s) {
        Option::None => Option::None,
        Option::Some((name, s1)) => match dec_pf(s1) {
            Option::None => Option::None,
            Option::Some((f, s2)) => Option::Some(
                (PackageEntryModel { name: name, file: f }, s2),
            ),
        },
    }
}

pub proof fn lemma_dec_enc_entry(e: PackageEntryModel, rest: Seq<char>)
    ensures
        dec_entry(enc_entry(e) + rest) == Some((e, rest)),
{
    assert(enc_entry(e) + rest =~= enc_field(e.name) + (enc_pf(e.file) + rest));
    lemma_dec_enc_field(e.name, enc_pf(e.file) + rest);
    lemma_dec_enc_pf(e.file, rest);
}

/// An entry list, first to last.
pub open spec fn enc_entries(es: Seq<PackageEntryModel>) -> Seq<char>
    decreases es.len(),
{
    if es.len() == 0 {
        Seq::empty()
    } else {
        enc_entry(es[0]) + enc_entries(es.drop_first())
    }
}

pub open spec fn dec_entries(s: Seq<char>, n: nat) -> Option<(Seq<PackageEntryModel>, Seq<char>)>
    decreases n,
{
    if n == 0 {
        Some((Seq::empty(), s))
    } else {
        match dec_entry(s) {
            Option::None => Option::None,
            Option::Some((e, s1)) => match dec_entries(s1, (n - 1) as nat) {
                Option::None => Option::None,
                Option::Some((es, s2)) => Option::Some((seq![e] + es, s2)),
            },
        }
    }
}

#[verifier::rlimit(60)]
pub proof fn lemma_dec_enc_entries(es: Seq<PackageEntryModel>, rest: Seq<char>)
    ensures
        dec_entries(enc_entries(es) + rest, es.len()) == Some((es, rest)),
    decreases es.len(),
{
    if es.len() == 0 {
        assert(enc_entries(es) + rest =~= rest);
        assert(es =~= Seq::<PackageEntryModel>::empty());
    } else {
        let e0 = es[0];
        let et = es.drop_first();
        assert(enc_entries(es) + rest =~= enc_entry(e0) + (enc_entries(et) + rest));
        lemma_dec_enc_entry(e0, enc_entries(et) + rest);
        lemma_dec_enc_entries(et, rest);
        assert(seq![e0] + et =~= es);
    }
}

/// A whole registry or catalog: the entry count, then the entries. Decoding
/// accepts nothing after the last entry.
pub open spec fn enc_registry(es: Seq<PackageEntryModel>) -> Seq<char> {
    enc_num(es.len()) + enc_entries(es)
}

pub open spec fn dec_registry(s: Seq<char>) -> Option<Seq<PackageEntryModel>> {
    match dec_num(s) {
        Option::None => Option::None,
        Option::Some((n, s1)) => match dec_entries(s1, n) {
            Option::None => Option::None,
            Option::Some((es, s2)) => if s2.len() == 0 {
                Option::Some(es)
            } else {
                Option::None
            },
        },
    }
}

/// A manifest file: one manifest record and nothing after it.
pub open spec fn dec_manifest(s: Seq<char>) -> Option<PackageFileModel> {
    match dec_pf(s) {
        Option::None => Option::None,
        Option::Some((m, rest)) => if rest.len() == 0 {
            Option::Some(m)
        } else {
            Option::None
        },
    }
}

/// Round trip: decoding an encoded registry gives back exactly the entries
/// that were encoded — same keys, same manifest field values, same order.
pub proof fn lemma_registry_round_trip(es: Seq<PackageEntryModel>)
    ensures
        dec_registry(enc_registry(es)) == Some(es),
{
    assert(enc_registry(es) =~= enc_num(es.len()) + (enc_entries(es) + Seq::<char>::empty()));
    lemma_dec_enc_num(es.len(), enc_entries(es) + Seq::<char>::empty());
    lemma_dec_enc_entries(es, Seq::empty());
}

/// Round trip for a single manifest file.
pub proof fn lemma_manifest_round_trip(m: PackageFileModel)
    ensures
        dec_manifest(enc_pf(m)) == Some(m),
{
    assert(enc_pf(m) =~= enc_pf(m) + Seq::<char>::empty());
    lemma_dec_enc_pf(m, Seq::empty());
}


/// A counted list of plain strings: the count, then each as a field.
pub open spec fn enc_strs(v: Seq<Seq<char>>) -> Seq<char>
    decreases v.len(),
{
    if v.len() == 0 {
        Seq::empty()
    } else {
        enc_field(v[0]) + enc_strs(v.drop_first())
    }
}

pub open spec fn dec_strs(s: Seq<char>, n: nat) -> Option<(Seq<Seq<char>>, Seq<char>)>
    decreases n,
{
    if n == 0 {
        Some((Seq::empty(), s))
    } else {
        match dec_field(s) {
            Option::None => Option::None,
            Option::Some((v, s1)) => match dec_strs(s1, (n - 1) as nat) {
                Option::None => Option::None,
                Option::Some((vs, s2)) => Option::Some((seq![v] + vs, s2)),
            },
        }
    }
}

pub open spec fn dec_counted_strs(s: Seq<char>) -> Option<(Seq<Seq<char>>, Seq<char>)> {
    match dec_num(s) {
        Option::None => Option::None,
        Option::Some((n, s1)) => dec_strs(s1, n),
    }
}

#[verifier::rlimit(60)]
pub proof fn lemma_dec_enc_strs(v: Seq<Seq<char>>, rest: Seq<char>)
    ensures
        dec_strs(enc_strs(v) + rest, v.len()) == Some((v, rest)),
    decreases v.len(),
{
    if v.len() == 0 {
        assert(enc_strs(v) + rest =~= rest);
        assert(v =~= Seq::<Seq<char>>::empty());
    } else {
        let v0 = v[0];
        let vt = v.drop_first();
        assert(enc_strs(v) + rest =~= enc_field(v0) + (enc_strs(vt) + rest));
        lemma_dec_enc_field(v0, enc_strs(vt) + rest);
        lemma_dec_enc_strs(vt, rest);
        assert(seq![v0] + vt =~= v);
    }
}

pub proof fn lemma_enc_strs_push(v: Seq<Seq<char>>, x: Seq<char>)
    ensures
        enc_strs(v.push(x)) == enc_strs(v) + enc_field(x),
    decreases v.len(),
{
    let p = v.push(x);
    if v.len() == 0 {
        assert(p[0] == x);
        assert(p.drop_first() =~= Seq::<Seq<char>>::empty());
        assert(enc_strs(p) == enc_field(p[0]) + enc_strs(p.drop_first()));
        assert(enc_strs(p.drop_first()) == enc_strs(Seq::<Seq<char>>::empty()));
        assert(enc_strs(Seq::<Seq<char>>::empty()) =~= Seq::<char>::empty());
        assert(enc_strs(v) =~= Seq::<char>::empty());
        assert(enc_strs(p) =~= enc_strs(v) + enc_field(x));
    } else {
        assert(p[0] == v[0]);
        assert(p.drop_first() =~= v.drop_first().push(x));
        lemma_enc_strs_push(v.drop_first(), x);
        assert(enc_strs(p) =~= enc_field(v[0]) + (enc_strs(v.drop_first()) + enc_field(x)));
        assert(enc_strs(v) + enc_field(x) =~= enc_field(v[0]) + (enc_strs(v.drop_first())
            + enc_field(x)));
    }
}

/// The persisted configuration: the counted mirror list, the storage
/// location, and the checksum-enforcement flag as `0` or `1`.
pub open spec fn enc_config(mirrors: Seq<Seq<char>>, storage: Seq<char>, checksum: bool) -> Seq<
    char,
> {
    enc_num(mirrors.len()) + enc_strs(mirrors) + enc_field(storage) + enc_num(
        if checksum {
            1
        } else {
            0
        },
    )
}

pub open spec fn dec_config(s: Seq<char>) -> Option<(Seq<Seq<char>>, Seq<char>, bool)> {
    match dec_counted_strs(s) {
        Option::None => Option::None,
        Option::Some((ms, s2)) => match dec_field(s2) {
            Option::None => Option::None,
            Option::Some((st, s3)) => match dec_num(s3) {
                Option::None => Option::None,
                Option::Some((f, s4)) => if s4.len() == 0 && (f == 0 || f == 1) {
                    Option::Some((ms, st, f == 1))
                } else {
                    Option::None
                },
            },
        },
    }
}

/// Round trip for the configuration file.
pub proof fn lemma_config_round_trip(mirrors: Seq<Seq<char>>, storage: Seq<char>, checksum: bool)
    ensures
        dec_config(enc_config(mirrors, storage, checksum)) == Some((mirrors, storage, checksum)),
{
    let flag: nat = if checksum {
        1
    } else {
        0
    };
    let f2 = enc_strs(mirrors);
    let f3 = enc_field(storage);
    let f4 = enc_num(flag);
    let s = enc_config(mirrors, storage, checksum);
    assert(s =~= enc_num(mirrors.len()) + (f2 + (f3 + (f4 + Seq::<char>::empty()))));
    lemma_dec_enc_num(mirrors.len(), f2 + (f3 + (f4 + Seq::<char>::empty())));
    lemma_dec_enc_strs(mirrors, f3 + (f4 + Seq::<char>::empty()));
    lemma_dec_enc_field(storage, f4 + Seq::<char>::empty());
    lemma_dec_enc_num(flag, Seq::<char>::empty());
}

// Progress: every successful parse consumes input, and a count larger than
// the remaining input cannot be satisfied.

pub proof fn lemma_dec_field_progress(s: Seq<char>)
    ensures
        dec_field(s) is Some ==> dec_field(s).unwrap().1.len() < s.len(),
{
    lemma_digits_end(s);
}

pub proof fn lemma_dec_num_progress(s: Seq<char>)
    ensures
        dec_num(s) is Some ==> dec_num(s).unwrap().1.len() < s.len(),
{
    lemma_digits_end(s);
}

pub proof fn lemma_dec_dep_progress(s: Seq<char>)
    ensures
        dec_dep(s) is Some ==> dec_dep(s).unwrap().1.len() < s.len(),
{
    lemma_dec_field_progress(s);
    if dec_field(s) is Some {
        lemma_dec_field_progress(dec_field(s).unwrap().1);
    }
}

pub proof fn lemma_dec_deps_progress(s: Seq<char>, n: nat)
    ensures
        dec_deps(s, n) is Some ==> dec_deps(s, n).unwrap().1.len() <= s.len(),
    decreases n,
{
    if n > 0 {
        lemma_dec_dep_progress(s);
        if dec_dep(s) is Some {
            lemma_dec_deps_progress(dec_dep(s).unwrap().1, (n - 1) as nat);
        }
    }
}

pub proof fn lemma_dec_pf_progress(s: Seq<char>)
    ensures
        dec_pf(s) is Some ==> dec_pf(s).unwrap().1.len() < s.len(),
{
    lemma_dec_field_progress(s);
    if dec_field(s) is Some {
        let s1 = dec_field(s).unwrap().1;
        lemma_dec_field_progress(s1);
        if dec_field(s1) is Some {
            let s2 = dec_field(s1).unwrap().1;
            lemma_dec_num_progress(s2);
            if dec_num(s2) is Some {
                let p = dec_num(s2).unwrap();
                lemma_dec_deps_progress(p.1, p.0);
                if dec_deps(p.1, p.0) is Some {
                    let s4 = dec_deps(p.1, p.0).unwrap().1;
                    lemma_dec_field_progress(s4);
                }
            }
        }
    }
}

pub proof fn lemma_dec_entry_progress(s: Seq<char>)
    ensures
        dec_entry(s) is Some ==> dec_entry(s).unwrap().1.len() < s.len(),
{
    lemma_dec_field_progress(s);
    if dec_field(s) is Some {
        lemma_dec_pf_progress(dec_field(s).unwrap().1);
    }
}

pub proof fn lemma_dec_deps_too_many(s: Seq<char>, n: nat)
    requires
        n > s.len(),
    ensures
        dec_deps(s, n) is None,
    decreases n,
{
    lemma_dec_dep_progress(s);
    if dec_dep(s) is Some {
        lemma_dec_deps_too_many(dec_dep(s).unwrap().1, (n - 1) as nat);
    }
}

pub proof fn lemma_dec_entries_too_many(s: Seq<char>, n: nat)
    requires
        n > s.len(),
    ensures
        dec_entries(s, n) is None,
    decreases n,
{
    lemma_dec_entry_progress(s);
    if dec_entry(s) is Some {
        lemma_dec_entries_too_many(dec_entry(s).unwrap().1, (n - 1) as nat);
    }
}

// Appending one element on the right extends the encoding on the right.

pub proof fn lemma_enc_deps_push(deps: Seq<DepModel>, d: DepModel)
    ensures
        enc_deps(deps.push(d)) == enc_deps(deps) + enc_dep(d),
    decreases deps.len(),
{
    let p = deps.push(d);
    if deps.len() == 0 {
        assert(p[0] == d);
        assert(p.drop_first() =~= Seq::<DepModel>::empty());
        assert(enc_deps(p) == enc_dep(p[0]) + enc_deps(p.drop_first()));
        assert(enc_deps(p.drop_first()) == enc_deps(Seq::<DepModel>::empty()));
        assert(enc_deps(Seq::<DepModel>::empty()) =~= Seq::<char>::empty());
        assert(enc_deps(deps) =~= Seq::<char>::empty());
        assert(enc_deps(p) =~= enc_deps(deps) + enc_dep(d));
    } else {
        assert(p[0] == deps[0]);
        assert(p.drop_first() =~= deps.drop_first().push(d));
        lemma_enc_deps_push(deps.drop_first(), d);
        assert(enc_deps(p) =~= enc_dep(deps[0]) + (enc_deps(deps.drop_first()) + enc_dep(d)));
        assert(enc_deps(deps) + enc_dep(d) =~= enc_dep(deps[0]) + (enc_deps(deps.drop_first())
            + enc_dep(d)));
    }
}

pub proof fn lemma_enc_entries_push(es: Seq<PackageEntryModel>, e: PackageEntryModel)
    ensures
        enc_entries(es.push(e)) == enc_entries(es) + enc_entry(e),
    decreases es.len(),
{
    let p = es.push(e);
    if es.len() == 0 {
        assert(p[0] == e);
        assert(p.drop_first() =~= Seq::<PackageEntryModel>::empty());
        assert(enc_entries(p) == enc_entry(p[0]) + enc_entries(p.drop_first()));
        assert(enc_entries(p.drop_first()) == enc_entries(Seq::<PackageEntryModel>::empty()));
        assert(enc_entries(Seq::<PackageEntryModel>::empty()) =~= Seq::<char>::empty());
        assert(enc_entries(es) =~= Seq::<char>::empty());
        assert(enc_entries(p) =~= enc_entries(es) + enc_entry(e));
    } else {
        assert(p[0] == es[0]);
        assert(p.drop_first() =~= es.drop_first().push(e));
        lemma_enc_entries_push(es.drop_first(), e);
        assert(enc_entries(p) =~= enc_entry(es[0]) + (enc_entries(es.drop_first())
            + enc_entry(e)));
        assert(enc_entries(es) + enc_entry(e) =~= enc_entry(es[0]) + (enc_entries(es.drop_first())
            + enc_entry(e)));
    }
}

// ---------------------------------------------------------------------------
// Executable encoders.

fn append_digit(out: &mut String, d: usize)
    requires
        d < 10,
    ensures
        final(out)@ == old(out)@ + seq![digit_char(d as nat)],
{
    if d == 0 {
        out.append("0");
        proof {
            reveal_strlit("0");
            assert(final(out)@ =~= old(out)@ + seq![digit_char(d as nat)]);
        }
    } else if d == 1 {
        out.append("1");
        proof {
            reveal_strlit("1");
            assert(final(out)@ =~= old(out)@ + seq![digit_char(d as nat)]);
        }
    } else if d == 2 {
        out.append("2");
        proof {
            reveal_strlit("2");
            assert(final(out)@ =~= old(out)@ + seq![digit_char(d as nat)]);
        }
    } else if d == 3 {
        out.append("3");
        proof {
            reveal_strlit("3");
            assert(final(out)@ =~= old(out)@ + seq![digit_char(d as nat)]);
        }
    } else if d == 4 {
        out.append("4");
        proof {
            reveal_strlit("4");
            assert(final(out)@ =~= old(out)@ + seq![digit_char(d as nat)]);
        }
    } else if d == 5 {
        out.append("5");
        proof {
            reveal_strlit("5");
            assert(final(out)@ =~= old(out)@ + seq![digit_char(d as nat)]);
        }
    } else if d == 6 {
        out.append("6");
        proof {
            reveal_strlit("6");
            assert(final(out)@ =~= old(out)@ + seq![digit_char(d as nat)]);
        }
    } else if d == 7 {
        out.append("7");
        proof {
            reveal_strlit("7");
            assert(final(out)@ =~= old(out)@ + seq![digit_char(d as nat)]);
        }
    } else if d == 8 {
        out.append("8");
        proof {
            reveal_strlit("8");
            assert(final(out)@ =~= old(out)@ + seq![digit_char(d as nat)]);
        }
    } else {
        out.append("9");
        proof {
            reveal_strlit("9");
            assert(final(out)@ =~= old(out)@ + seq![digit_char(d as nat)]);
        }
    }
}

fn append_nat(out: &mut String, n: usize)
    ensures
        final(out)@ == old(out)@ + render_nat(n as nat),
    decreases n,
{
    if n < 10 {
        append_digit(out, n);
        proof {
            assert(render_nat(n as nat) =~= seq![digit_char(n as nat)]);
        }
    } else {
        append_nat(out, n / 10);
        append_digit(out, n % 10);
        proof {
            assert((n / 10) as nat == n as nat / 10);
            assert((n % 10) as nat == n as nat % 10);
            assert(render_nat(n as nat) == render_nat(n as nat / 10).push(
                digit_char(n as nat % 10),
            ));
            assert(final(out)@ =~= old(out)@ + render_nat(n as nat));
        }
    }
}

pub(crate) fn append_field(out: &mut String, v: &String)
    ensures
        final(out)@ == old(out)@ + enc_field(v@),
{
    let len = v.as_str().unicode_len();
    append_nat(out, len);
    out.append(":");
    out.append(v.as_str());
    proof {
        reveal_strlit(":");
        assert(":"@ =~= seq![':']);
        assert(final(out)@ =~= old(out)@ + enc_field(v@));
    }
}

pub(crate) fn append_count(out: &mut String, n: usize)
    ensures
        final(out)@ == old(out)@ + enc_num(n as nat),
{
    append_nat(out, n);
    out.append(";");
    proof {
        reveal_strlit(";");
        assert(";"@ =~= seq![';']);
        assert(final(out)@ =~= old(out)@ + enc_num(n as nat));
    }
}

fn append_dep(out: &mut String, d: &Dependency)
    ensures
        final(out)@ == old(out)@ + enc_dep(d@),
{
    append_field(out, &d.name);
    append_field(out, &d.min_version);
    proof {
        assert(final(out)@ =~= old(out)@ + enc_dep(d@));
    }
}

fn append_pf(out: &mut String, pf: &PackageFile)
    ensures
        final(out)@ == old(out)@ + enc_pf(pf@),
{
    append_field(out, &pf.name);
    append_field(out, &pf.version);
    append_count(out, pf.dependencies.len());
    proof {
        assert(pf@.dependencies.len() == pf.dependencies@.len());
    }
    let ghost base = out@;
    let mut i: usize = 0;
    while i < pf.dependencies.len()
        invariant
            i <= pf.dependencies.len(),
            out@ == base + enc_deps(pf@.dependencies.take(i as int)),
            pf@.dependencies.len() == pf.dependencies@.len(),
            forall|x: int|
                0 <= x < pf@.dependencies.len() ==> #[trigger] pf@.dependencies[x]
                    == pf.dependencies@[x]@,
        decreases pf.dependencies.len() - i,
    {
        append_dep(out, &pf.dependencies[i]);
        proof {
            let dv = pf@.dependencies;
            assert(dv.take(i + 1) =~= dv.take(i as int).push(dv[i as int]));
            lemma_enc_deps_push(dv.take(i as int), dv[i as int]);
            assert(out@ =~= base + enc_deps(dv.take(i + 1)));
        }
        i = i + 1;
    }
    proof {
        assert(pf@.dependencies.take(pf@.dependencies.len() as int) =~= pf@.dependencies);
    }
    append_field(out, &pf.checksum);
    proof {
        assert(final(out)@ =~= old(out)@ + enc_pf(pf@));
    }
}

fn append_entry(out: &mut String, e: &PackageEntry)
    ensures
        final(out)@ == old(out)@ + enc_entry(e@),
{
    append_field(out, &e.name);
    append_pf(out, &e.file);
    proof {
        assert(final(out)@ =~= old(out)@ + enc_entry(e@));
    }
}

fn append_entry_list(out: &mut String, v: &Vec<PackageEntry>)
    ensures
        final(out)@ == old(out)@ + enc_registry(v@.map_values(|e: PackageEntry| e@)),
{
    let ghost es = v@.map_values(|e: PackageEntry| e@);
    proof {
        assert(forall|x: int| 0 <= x < v@.len() ==> #[trigger] es[x] == v@[x]@);
    }
    append_count(out, v.len());
    let ghost base = out@;
    let mut i: usize = 0;
    while i < v.len()
        invariant
            i <= v.len(),
            es == v@.map_values(|e: PackageEntry| e@),
            es.len() == v@.len(),
            out@ == base + enc_entries(es.take(i as int)),
            forall|x: int| 0 <= x < v@.len() ==> #[trigger] es[x] == v@[x]@,
        decreases v.len() - i,
    {
        append_entry(out, &v[i]);
        proof {
            assert(es.take(i + 1) =~= es.take(i as int).push(es[i as int]));
            lemma_enc_entries_push(es.take(i as int), es[i as int]);
            assert(out@ =~= base + enc_entries(es.take(i + 1)));
        }
        i = i + 1;
    }
    proof {
        assert(es.take(es.len() as int) =~= es);
        assert(final(out)@ =~= old(out)@ + enc_registry(es));
    }
}

// ---------------------------------------------------------------------------
// Executable parsers. Each works at a character index and is exact against
// the corresponding spec parser applied to the rest of the input.

fn scan_digits(s: &str, i: usize, len: usize) -> (r: usize)
    requires
        i <= len,
        len as int == s@.len(),
    ensures
        i <= r <= len,
        digits_end(s@.skip(i as int)) == r - i,
        forall|x: int| i <= x < r ==> is_digit_char(#[trigger] s@[x]),
{
    let ghost t = s@.skip(i as int);
    proof {
        assert(forall|x: int| 0 <= x < t.len() ==> #[trigger] t[x] == s@[x + i]);
    }
    let mut k = i;
    while k < len
        invariant
            i <= k <= len,
            len as int == s@.len(),
            t == s@.skip(i as int),
            forall|x: int| i <= x < k ==> is_digit_char(#[trigger] s@[x]),
            forall|x: int| 0 <= x < t.len() ==> #[trigger] t[x] == s@[x + i],
        decreases len - k,
    {
        let c = s.get_char(k);
        if !('0' <= c && c <= '9') {
            proof {
                lemma_digits_end_at(t, k - i);
            }
            return k;
        }
        k = k + 1;
    }
    proof {
        lemma_digits_end_at(t, k - i);
    }
    k
}

/// The value of the digit run `s[i..e)`, or `None` when it does not fit in
/// `usize`; then it is in particular larger than the whole input's length.
fn digits_value(s: &str, i: usize, e: usize, len: usize) -> (r: Option<usize>)
    requires
        i <= e <= len,
        len as int == s@.len(),
        forall|x: int| i <= x < e ==> is_digit_char(#[trigger] s@[x]),
    ensures
        match r {
            Some(v) => v as nat == digits_val(s@.subrange(i as int, e as int)),
            None => digits_val(s@.subrange(i as int, e as int)) > s@.len(),
        },
{
    let mut acc: usize = 0;
    let mut k = i;
    while k < e
        invariant
            i <= k <= e <= len,
            len as int == s@.len(),
            acc as nat == digits_val(s@.subrange(i as int, k as int)),
            forall|x: int| i <= x < e ==> is_digit_char(#[trigger] s@[x]),
        decreases e - k,
    {
        let c = s.get_char(k);
        proof {
            assert(is_digit_char(s@[k as int]));
            assert(48 <= c as u32 <= 57);
        }
        let d = (c as u32 - 48) as usize;
        let q = (usize::MAX - d) / 10;
        proof {
            lemma_fundamental_div_mod((usize::MAX - d) as int, 10);
            assert((usize::MAX - d) as int % 10 < 10);
            assert((usize::MAX - d) as int % 10 >= 0);
            assert(10 * (q as int) <= usize::MAX - d);
        }
        if acc > q {
            proof {
                assert(acc as int * 10 >= (q as int + 1) * 10);
                assert((q as int + 1) * 10 == 10 * (q as int) + 10);
                assert(acc as int * 10 + d as int > usize::MAX as int);
                let pre = s@.subrange(i as int, k + 1);
                assert(pre.drop_last() =~= s@.subrange(i as int, k as int));
                assert(pre.last() == s@[k as int]);
                assert(digit_val(s@[k as int]) == d as nat);
                assert(digits_val(pre) == acc as nat * 10 + d as nat);
                assert(s@.subrange(i as int, e as int) =~= pre + s@.subrange(k + 1, e as int));
                lemma_digits_val_prefix_le(pre, s@.subrange(k + 1, e as int));
                assert(digits_val(s@.subrange(i as int, e as int)) > usize::MAX as nat);
            }
            return None;
        }
        proof {
            assert(acc as int * 10 <= 10 * (q as int));
            assert(acc as int * 10 + d as int <= usize::MAX as int);
            let pre = s@.subrange(i as int, k + 1);
            assert(pre.drop_last() =~= s@.subrange(i as int, k as int));
            assert(pre.last() == s@[k as int]);
            assert(digit_val(s@[k as int]) == d as nat);
            assert(digits_val(pre) == acc as nat * 10 + d as nat);
        }
        acc = acc * 10 + d;
        k = k + 1;
    }
    Some(acc)
}

/// Parse a count. `None` covers both a malformed count and one too large to
/// represent; a represented count is exact against `dec_num`.
pub(crate) fn parse_count(s: &str, i: usize, len: usize) -> (r: Option<(usize, usize)>)
    requires
        i <= len,
        len as int == s@.len(),
    ensures
        match r {
            Some(p) => i <= p.1 <= len && dec_num(s@.skip(i as int)) == Some(
                (p.0 as nat, s@.skip(p.1 as int)),
            ),
            None => dec_num(s@.skip(i as int)) is None || dec_num(
                s@.skip(i as int),
            ).unwrap().0 > s@.len(),
        },
{
    let ghost t = s@.skip(i as int);
    proof {
        assert(forall|x: int| 0 <= x < t.len() ==> #[trigger] t[x] == s@[x + i]);
    }
    let e = scan_digits(s, i, len);
    if e == i {
        return None;
    }
    if e == len {
        return None;
    }
    let c = s.get_char(e);
    if c != ';' {
        proof {
            assert(t[e - i] == s@[e as int]);
        }
        return None;
    }
    proof {
        assert(t[e - i] == s@[e as int]);
        assert(t.take(e - i) =~= s@.subrange(i as int, e as int));
    }
    match digits_value(s, i, e, len) {
        Some(v) => {
            proof {
                assert(t.skip(e - i + 1) =~= s@.skip(e + 1));
            }
            Some((v, e + 1))
        },
        None => None,
    }
}

/// Parse one field into an owned `String`, exactly as `dec_field` reads it.
pub(crate) fn parse_field(s: &str, i: usize, len: usize) -> (r: Option<(String, usize)>)
    requires
        i <= len,
        len as int == s@.len(),
    ensures
        match r {
            Some(p) => i <= p.1 <= len && dec_field(s@.skip(i as int)) == Some(
                (p.0@, s@.skip(p.1 as int)),
            ),
            None => dec_field(s@.skip(i as int)) is None,
        },
{
    let ghost t = s@.skip(i as int);
    proof {
        assert(forall|x: int| 0 <= x < t.len() ==> #[trigger] t[x] == s@[x + i]);
    }
    let e = scan_digits(s, i, len);
    if e == i {
        return None;
    }
    if e == len {
        return None;
    }
    let c = s.get_char(e);
    if c != ':' {
        proof {
            assert(t[e - i] == s@[e as int]);
        }
        return None;
    }
    proof {
        assert(t[e - i] == s@[e as int]);
        assert(t.take(e - i) =~= s@.subrange(i as int, e as int));
        assert(t.skip(e - i + 1) =~= s@.skip(e + 1));
    }
    let n = match digits_value(s, i, e, len) {
        Some(v) => v,
        None => {
            return None;
        },
    };
    let avail = len - (e + 1);
    if n > avail {
        return None;
    }
    let body_start = e + 1;
    let sub = s.substring_char(body_start, body_start + n);
    let v = sub.to_owned();
    proof {
        let body = t.skip(e - i + 1);
        assert(body.take(n as int) =~= s@.subrange(body_start as int, body_start + n));
        assert(body.skip(n as int) =~= s@.skip(body_start + n));
    }
    Some((v, body_start + n))
}

fn parse_dep(s: &str, i: usize, len: usize) -> (r: Option<(Dependency, usize)>)
    requires
        i <= len,
        len as int == s@.len(),
    ensures
        match r {
            Some(p) => i <= p.1 <= len && dec_dep(s@.skip(i as int)) == Some(
                (p.0@, s@.skip(p.1 as int)),
            ),
            None => dec_dep(s@.skip(i as int)) is None,
        },
{
    let (name, j1) = match parse_field(s, i, len) {
        Some(p) => p,
        None => {
            return None;
        },
    };
    let (min_version, j2) = match parse_field(s, j1, len) {
        Some(p) => p,
        None => {
            return None;
        },
    };
    Some((Dependency { name, min_version }, j2))
}

/// What prepending already-parsed items does to the rest of a list parse.
spec fn extend_deps(
    pre: Seq<DepModel>,
    o: Option<(Seq<DepModel>, Seq<char>)>,
) -> Option<(Seq<DepModel>, Seq<char>)> {
    match o {
        Option::None => Option::None,
        Option::Some((ds, r)) => Option::Some((pre + ds, r)),
    }
}

fn parse_pf(s: &str, i: usize, len: usize) -> (r: Option<(PackageFile, usize)>)
    requires
        i <= len,
        len as int == s@.len(),
    ensures
        match r {
            Some(p) => i <= p.1 <= len && dec_pf(s@.skip(i as int)) == Some(
                (p.0@, s@.skip(p.1 as int)),
            ),
            None => dec_pf(s@.skip(i as int)) is None,
        },
{
    let (name, i1) = match parse_field(s, i, len) {
        Some(p) => p,
        None => {
            return None;
        },
    };
    let (version, i2) = match parse_field(s, i1, len) {
        Some(p) => p,
        None => {
            return None;
        },
    };
    let (count, i3) = match parse_count(s, i2, len) {
        Some(p) => p,
        None => {
            proof {
                let s2 = s@.skip(i2 as int);
                lemma_dec_num_progress(s2);
                if dec_num(s2) is Some {
                    let p = dec_num(s2).unwrap();
                    lemma_dec_deps_too_many(p.1, p.0);
                }
            }
            return None;
        },
    };
    let ghost gname = name@;
    let ghost gver = version@;
    let mut deps: Vec<Dependency> = Vec::new();
    let ghost mut gdeps: Seq<DepModel> = Seq::empty();
    let mut pos = i3;
    let mut t: usize = 0;
    proof {
        assert(gdeps + dec_deps(s@.skip(i3 as int), count as nat).unwrap().0 =~= dec_deps(
            s@.skip(i3 as int),
            count as nat,
        ).unwrap().0) by {
            if dec_deps(s@.skip(i3 as int), count as nat) is Some {
            }
        }
        assert(extend_deps(gdeps, dec_deps(s@.skip(pos as int), (count - t) as nat)) == dec_deps(
            s@.skip(i3 as int),
            count as nat,
        )) by {
            if dec_deps(s@.skip(i3 as int), count as nat) is Some {
                let p = dec_deps(s@.skip(i3 as int), count as nat).unwrap();
                assert(gdeps + p.0 =~= p.0);
            }
        }
    }
    while t < count
        invariant
            t <= count,
            i <= len,
            i3 <= pos <= len,
            len as int == s@.len(),
            deps@.len() == t,
            gdeps.len() == t as nat,
            forall|x: int| 0 <= x < t ==> #[trigger] gdeps[x] == deps@[x]@,
            extend_deps(gdeps, dec_deps(s@.skip(pos as int), (count - t) as nat)) == dec_deps(
                s@.skip(i3 as int),
                count as nat,
            ),
            dec_field(s@.skip(i as int)) == Some((gname, s@.skip(i1 as int))),
            dec_field(s@.skip(i1 as int)) == Some((gver, s@.skip(i2 as int))),
            dec_num(s@.skip(i2 as int)) == Some((count as nat, s@.skip(i3 as int))),
        decreases count - t,
    {
        let (d, pos2) = match parse_dep(s, pos, len) {
            Some(p) => p,
            None => {
                proof {
                    assert(dec_deps(s@.skip(pos as int), (count - t) as nat) is None);
                    assert(dec_deps(s@.skip(i3 as int), count as nat) is None);
                }
                return None;
            },
        };
        proof {
            let rest = dec_deps(s@.skip(pos2 as int), (count - t - 1) as nat);
            assert(dec_deps(s@.skip(pos as int), (count - t) as nat) == extend_deps(
                seq![d@],
                rest,
            )) by {
                if rest is Some {
                    let p = rest.unwrap();
                    assert(seq![d@] + p.0 =~= seq![d@] + p.0);
                }
            }
            assert(extend_deps(gdeps, extend_deps(seq![d@], rest)) == extend_deps(
                gdeps.push(d@),
                rest,
            )) by {
                if rest is Some {
                    let p = rest.unwrap();
                    assert(gdeps + (seq![d@] + p.0) =~= gdeps.push(d@) + p.0);
                }
            }
            gdeps = gdeps.push(d@);
        }
        deps.push(d);
        pos = pos2;
        t = t + 1;
    }
    proof {
        assert(dec_deps(s@.skip(pos as int), 0) == Some(
            (Seq::<DepModel>::empty(), s@.skip(pos as int)),
        ));
        assert(gdeps + Seq::<DepModel>::empty() =~= gdeps);
        assert(dec_deps(s@.skip(i3 as int), count as nat) == Some((gdeps, s@.skip(pos as int))));
    }
    let (checksum, j) = match parse_field(s, pos, len) {
        Some(p) => p,
        None => {
            return None;
        },
    };
    let pf = PackageFile { name, version, dependencies: deps, checksum };
    proof {
        assert(pf@.dependencies =~= gdeps);
        assert(dec_pf(s@.skip(i as int)) == Some((pf@, s@.skip(j as int))));
    }
    Some((pf, j))
}

fn parse_entry(s: &str, i: usize, len: usize) -> (r: Option<(PackageEntry, usize)>)
    requires
        i <= len,
        len as int == s@.len(),
    ensures
        match r {
            Some(p) => i <= p.1 <= len && dec_entry(s@.skip(i as int)) == Some(
                (p.0@, s@.skip(p.1 as int)),
            ),
            None => dec_entry(s@.skip(i as int)) is None,
        },
{
    let (name, j1) = match parse_field(s, i, len) {
        Some(p) => p,
        None => {
            return None;
        },
    };
    let (file, j2) = match parse_pf(s, j1, len) {
        Some(p) => p,
        None => {
            return None;
        },
    };
    Some((PackageEntry { name, file }, j2))
}

/// What prepending already-parsed entries does to the rest of the parse.
spec fn extend_entries(
    pre: Seq<PackageEntryModel>,
    o: Option<(Seq<PackageEntryModel>, Seq<char>)>,
) -> Option<(Seq<PackageEntryModel>, Seq<char>)> {
    match o {
        Option::None => Option::None,
        Option::Some((es, r)) => Option::Some((pre + es, r)),
    }
}

/// Parse a whole registry or catalog document into its entry list.
fn parse_entry_list(s: &str) -> (r: Option<Vec<PackageEntry>>)
    ensures
        match r {
            Some(v) => dec_registry(s@) == Some(v@.map_values(|e: PackageEntry| e@)),
            None => dec_registry(s@) is None,
        },
{
    let len = s.unicode_len();
    proof {
        assert(s@.skip(0) =~= s@);
    }
    let (count, i0) = match parse_count(s, 0, len) {
        Some(p) => p,
        None => {
            proof {
                lemma_dec_num_progress(s@);
                if dec_num(s@) is Some {
                    let p = dec_num(s@).unwrap();
                    lemma_dec_entries_too_many(p.1, p.0);
                }
            }
            return None;
        },
    };
    let mut entries: Vec<PackageEntry> = Vec::new();
    let ghost mut ges: Seq<PackageEntryModel> = Seq::empty();
    let mut pos = i0;
    let mut t: usize = 0;
    proof {
        assert(extend_entries(ges, dec_entries(s@.skip(pos as int), (count - t) as nat))
            == dec_entries(s@.skip(i0 as int), count as nat)) by {
            if dec_entries(s@.skip(i0 as int), count as nat) is Some {
                let p = dec_entries(s@.skip(i0 as int), count as nat).unwrap();
                assert(ges + p.0 =~= p.0);
            }
        }
    }
    while t < count
        invariant
            t <= count,
            i0 <= pos <= len,
            len as int == s@.len(),
            entries@.len() == t,
            ges.len() == t as nat,
            forall|x: int| 0 <= x < t ==> #[trigger] ges[x] == entries@[x]@,
            extend_entries(ges, dec_entries(s@.skip(pos as int), (count - t) as nat))
                == dec_entries(s@.skip(i0 as int), count as nat),
            dec_num(s@) == Some((count as nat, s@.skip(i0 as int))),
        decreases count - t,
    {
        let (e, pos2) = match parse_entry(s, pos, len) {
            Some(p) => p,
            None => {
                proof {
                    assert(dec_entries(s@.skip(i0 as int), count as nat) is None);
                }
                return None;
            },
        };
        proof {
            let rest = dec_entries(s@.skip(pos2 as int), (count - t - 1) as nat);
            assert(dec_entries(s@.skip(pos as int), (count - t) as nat) == extend_entries(
                seq![e@],
                rest,
            )) by {
                if rest is Some {
                    let p = rest.unwrap();
                    assert(seq![e@] + p.0 =~= seq![e@] + p.0);
                }
            }
            assert(extend_entries(ges, extend_entries(seq![e@], rest)) == extend_entries(
                ges.push(e@),
                rest,
            )) by {
                if rest is Some {
                    let p = rest.unwrap();
                    assert(ges + (seq![e@] + p.0) =~= ges.push(e@) + p.0);
                }
            }
            ges = ges.push(e@);
        }
        entries.push(e);
        pos = pos2;
        t = t + 1;
    }
    proof {
        assert(ges + Seq::<PackageEntryModel>::empty() =~= ges);
        assert(dec_entries(s@.skip(i0 as int), count as nat) == Some(
            (ges, s@.skip(pos as int)),
        ));
    }
    if pos != len {
        proof {
            assert(s@.skip(pos as int).len() > 0);
        }
        return None;
    }
    proof {
        assert(s@.skip(pos as int).len() == 0);
        assert(entries@.map_values(|e: PackageEntry| e@) =~= ges);
    }
    Some(entries)
}


/// Append a counted string list, as the configuration stores its mirrors.
pub(crate) fn append_str_list(out: &mut String, v: &Vec<String>)
    ensures
        final(out)@ == old(out)@ + enc_num(v@.len() as nat) + enc_strs(
            v@.map_values(|m: String| m@),
        ),
{
    let ghost vs = v@.map_values(|m: String| m@);
    proof {
        assert(forall|x: int| 0 <= x < v@.len() ==> #[trigger] vs[x] == v@[x]@);
    }
    append_count(out, v.len());
    let ghost base = out@;
    let mut i: usize = 0;
    while i < v.len()
        invariant
            i <= v.len(),
            vs == v@.map_values(|m: String| m@),
            vs.len() == v@.len(),
            out@ == base + enc_strs(vs.take(i as int)),
            forall|x: int| 0 <= x < v@.len() ==> #[trigger] vs[x] == v@[x]@,
        decreases v.len() - i,
    {
        append_field(out, &v[i]);
        proof {
            assert(vs.take(i + 1) =~= vs.take(i as int).push(vs[i as int]));
            lemma_enc_strs_push(vs.take(i as int), vs[i as int]);
            assert(out@ =~= base + enc_strs(vs.take(i + 1)));
        }
        i = i + 1;
    }
    proof {
        assert(vs.take(vs.len() as int) =~= vs);
        assert(final(out)@ =~= old(out)@ + enc_num(v@.len() as nat) + enc_strs(vs));
    }
}

/// What prepending already-parsed strings does to the rest of the parse.
spec fn extend_strs(
    pre: Seq<Seq<char>>,
    o: Option<(Seq<Seq<char>>, Seq<char>)>,
) -> Option<(Seq<Seq<char>>, Seq<char>)> {
    match o {
        Option::None => Option::None,
        Option::Some((vs, r)) => Option::Some((pre + vs, r)),
    }
}

pub proof fn lemma_dec_strs_too_many(s: Seq<char>, n: nat)
    requires
        n > s.len(),
    ensures
        dec_strs(s, n) is None,
    decreases n,
{
    lemma_dec_field_progress(s);
    if dec_field(s) is Some {
        lemma_dec_strs_too_many(dec_field(s).unwrap().1, (n - 1) as nat);
    }
}

/// Parse a counted string list, exactly as `dec_counted_strs` reads it.
pub(crate) fn parse_str_list(s: &str, i: usize, len: usize) -> (r: Option<(Vec<String>, usize)>)
    requires
        i <= len,
        len as int == s@.len(),
    ensures
        match r {
            Some(p) => i <= p.1 <= len && dec_counted_strs(s@.skip(i as int)) == Some(
                (p.0@.map_values(|m: String| m@), s@.skip(p.1 as int)),
            ),
            None => dec_counted_strs(s@.skip(i as int)) is None,
        },
{
    let (count, i0) = match parse_count(s, i, len) {
        Some(p) => p,
        None => {
            proof {
                let si = s@.skip(i as int);
                lemma_dec_num_progress(si);
                if dec_num(si) is Some {
                    let p = dec_num(si).unwrap();
                    lemma_dec_strs_too_many(p.1, p.0);
                }
            }
            return None;
        },
    };
    let mut out: Vec<String> = Vec::new();
    let ghost mut gvs: Seq<Seq<char>> = Seq::empty();
    let mut pos = i0;
    let mut t: usize = 0;
    proof {
        assert(extend_strs(gvs, dec_strs(s@.skip(pos as int), (count - t) as nat)) == dec_strs(
            s@.skip(i0 as int),
            count as nat,
        )) by {
            if dec_strs(s@.skip(i0 as int), count as nat) is Some {
                let p = dec_strs(s@.skip(i0 as int), count as nat).unwrap();
                assert(gvs + p.0 =~= p.0);
            }
        }
    }
    while t < count
        invariant
            t <= count,
            i <= len,
            i0 <= pos <= len,
            len as int == s@.len(),
            out@.len() == t,
            gvs.len() == t as nat,
            forall|x: int| 0 <= x < t ==> #[trigger] gvs[x] == out@[x]@,
            extend_strs(gvs, dec_strs(s@.skip(pos as int), (count - t) as nat)) == dec_strs(
                s@.skip(i0 as int),
                count as nat,
            ),
            dec_num(s@.skip(i as int)) == Some((count as nat, s@.skip(i0 as int))),
        decreases count - t,
    {
        let (v, pos2) = match parse_field(s, pos, len) {
            Some(p) => p,
            None => {
                proof {
                    assert(dec_strs(s@.skip(i0 as int), count as nat) is None);
                }
                return None;
            },
        };
        proof {
            let rest = dec_strs(s@.skip(pos2 as int), (count - t - 1) as nat);
            assert(dec_strs(s@.skip(pos as int), (count - t) as nat) == extend_strs(
                seq![v@],
                rest,
            )) by {
                if rest is Some {
                    let p = rest.unwrap();
                    assert(seq![v@] + p.0 =~= seq![v@] + p.0);
                }
            }
            assert(extend_strs(gvs, extend_strs(seq![v@], rest)) == extend_strs(
                gvs.push(v@),
                rest,
            )) by {
                if rest is Some {
                    let p = rest.unwrap();
                    assert(gvs + (seq![v@] + p.0) =~= gvs.push(v@) + p.0);
                }
            }
            gvs = gvs.push(v@);
        }
        out.push(v);
        pos = pos2;
        t = t + 1;
    }
    proof {
        assert(gvs + Seq::<Seq<char>>::empty() =~= gvs);
        assert(dec_strs(s@.skip(i0 as int), count as nat) == Some((gvs, s@.skip(pos as int))));
        assert(out@.map_values(|m: String| m@) =~= gvs);
    }
    Some((out, pos))
}

impl Packages {
    /// Serialize the registry; `decode` reads it back exactly.
    pub fn encode(&self) -> (r: String)
        ensures
            r@ == enc_registry(self@),
    {
        let mut out = String::new();
        append_entry_list(&mut out, &self.packages);
        proof {
            assert(out@ =~= enc_registry(self@));
        }
        out
    }

    /// Read a registry back from its serialized form. The result is exactly
    /// what `dec_registry` describes; a document whose entries repeat a name
    /// is rejected, so a decoded registry is always well-formed.
    pub fn decode(s: &str) -> (r: Option<Packages>)
        ensures
            match r {
                Some(p) => dec_registry(s@) == Some(p@) && p.wf(),
                None => dec_registry(s@) is None || !unique_names(dec_registry(s@).unwrap()),
            },
    {
        let entries = match parse_entry_list(s) {
            Some(v) => v,
            None => {
                return None;
            },
        };
        if !names_unique(&entries) {
            return None;
        }
        Some(Packages { packages: entries })
    }
}

impl Repo {
    /// Serialize the catalog in the same framing as the registry.
    pub fn encode(&self) -> (r: String)
        ensures
            r@ == enc_registry(self@),
    {
        let mut out = String::new();
        append_entry_list(&mut out, &self.packages);
        proof {
            assert(out@ =~= enc_registry(self@));
        }
        out
    }

    /// Read a catalog from the bytes a mirror served.
    pub fn decode(s: &str) -> (r: Option<Repo>)
        ensures
            match r {
                Some(repo) => dec_registry(s@) == Some(repo@),
                None => dec_registry(s@) is None,
            },
    {
        match parse_entry_list(s) {
            Some(v) => Some(Repo { packages: v }),
            None => None,
        }
    }
}

impl PackageFile {
    /// Serialize one manifest, as stored inside a package archive.
    pub fn encode(&self) -> (r: String)
        ensures
            r@ == enc_pf(self@),
    {
        let mut out = String::new();
        append_pf(&mut out, self);
        proof {
            assert(out@ =~= enc_pf(self@));
        }
        out
    }

    /// Parse a manifest file; nothing may follow the record.
    pub fn decode(s: &str) -> (r: Option<PackageFile>)
        ensures
            match r {
                Some(p) => dec_manifest(s@) == Some(p@),
                None => dec_manifest(s@) is None,
            },
    {
        let len = s.unicode_len();
        proof {
            assert(s@.skip(0) =~= s@);
        }
        match parse_pf(s, 0, len) {
            Some((pf, j)) => {
                if j == len {
                    proof {
                        assert(s@.skip(j as int).len() == 0);
                    }
                    Some(pf)
                } else {
                    proof {
                        assert(s@.skip(j as int).len() > 0);
                    }
                    None
                }
            },
            None => None,
        }
    }
}


} // verus!
