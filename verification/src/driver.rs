//! The batch driver's decisions and output framing: mode selection,
//! YAML file-name filtering, output-path computation, and the framed
//! output text for one document set.

use vstd::prelude::*;
use crate::value::{Value, ValueModel, models_of, model_of, lemma_models_of_index};
use crate::errors::{Error, ErrorModel, error_model, strs_of};
use crate::engine::{subst_value, substitute};
use crate::registry::{Registry, build_registry, reg_after_texts, lemma_registry_finite};
use crate::yaml::{parse_documents, parsed_docs, emit_document, emitted_doc};

verus! {

broadcast use vstd::std_specs::vec::group_vec_axioms, vstd::seq::group_seq_axioms,
    vstd::set::group_set_axioms, vstd::map::group_map_axioms;

/// Checks that input and output agree about being a directory; they must
/// be both directories or both single files.
pub fn check_modes(input_is_dir: bool, output_is_dir: bool) -> (r: Result<(), Error>)
    ensures
        r is Ok <==> input_is_dir == output_is_dir,
        r matches Err(e) ==> error_model(e) == ErrorModel::ModeMismatch(input_is_dir),
{
    if input_is_dir != output_is_dir {
        Err(Error::ModeMismatch(input_is_dir))
    } else {
        Ok(())
    }
}

/// Whether a file name ends in `.yml` or `.yaml`.
pub open spec fn yaml_name(n: Seq<char>) -> bool {
    ||| n.len() >= 4 && n.skip(n.len() - 4) == ".yml"@
    ||| n.len() >= 5 && n.skip(n.len() - 5) == ".yaml"@
}

/// Whether a file name ends in `.yml` or `.yaml`.
pub fn is_yaml_file_name(n: &String) -> (r: bool)
    ensures
        r == yaml_name(n@),
{
    let len = n.as_str().unicode_len();
    if len >= 4 && n.as_str().substring_char(len - 4, len).to_owned().eq(
        &String::from_str(".yml"),
    ) {
        true
    } else if len >= 5 && n.as_str().substring_char(len - 5, len).to_owned().eq(
        &String::from_str(".yaml"),
    ) {
        true
    } else {
        false
    }
}

/// The names that are kept when a directory is listed: those ending in
/// `.yml` or `.yaml`, in the order given.
#[verifier::loop_isolation(false)]
pub fn select_yaml_files(names: &Vec<String>) -> (r: Vec<String>)
    ensures
        strs_of(r@) == strs_of(names@).filter(|n: Seq<char>| yaml_name(n)),
{
    let ghost all = strs_of(names@);
    let ghost pred = |n: Seq<char>| yaml_name(n);
    let mut out: Vec<String> = Vec::new();
    proof {
        reveal(Seq::filter);
        assert(strs_of(out@) =~= all.subrange(0, 0).filter(pred));
    }
    let mut i: usize = 0;
    while i < names.len()
        invariant
            i <= names@.len(),
            strs_of(out@) == all.subrange(0, i as int).filter(pred),
        decreases names@.len() - i,
    {
        let ghost done = all.subrange(0, i as int);
        if is_yaml_file_name(&names[i]) {
            out.push(names[i].clone());
        }
        proof {
            reveal(Seq::filter);
            assert(all.subrange(0, i + 1).drop_last() =~= done);
            assert(all.subrange(0, i + 1).last() == all[i as int]);
            if yaml_name(all[i as int]) {
                assert(strs_of(out@) =~= done.filter(pred).push(all[i as int]));
            }
        }
        i = i + 1;
    }
    proof {
        assert(all.subrange(0, names@.len() as int) =~= all);
    }
    out
}

/// A directory path joined with a file name: a separator is put between
/// them unless the directory already ends with one.
pub open spec fn joined_path(dir: Seq<char>, name: Seq<char>) -> Seq<char> {
    if dir.len() == 0 {
        name
    } else if dir.last() == '/' {
        dir + name
    } else {
        dir + "/"@ + name
    }
}

/// Joins a directory path and a file name.
pub fn join_path(dir: &String, name: &String) -> (r: String)
    ensures
        r@ == joined_path(dir@, name@),
{
    let len = dir.as_str().unicode_len();
    if len == 0 {
        name.clone()
    } else if dir.as_str().get_char(len - 1) == '/' {
        let mut out = dir.clone();
        out.append(name.as_str());
        out
    } else {
        let mut out = dir.clone();
        out.append("/");
        out.append(name.as_str());
        out
    }
}

/// The index of the last `/` in a path, or one before the start.
pub open spec fn last_slash(p: Seq<char>) -> int
    decreases p.len(),
{
    if p.len() == 0 {
        -1
    } else if p.last() == '/' {
        p.len() - 1
    } else {
        last_slash(p.drop_last())
    }
}

/// A path with its trailing `/` separators removed.
pub open spec fn strip_slashes(p: Seq<char>) -> Seq<char>
    decreases p.len(),
{
    if p.len() > 0 && p.last() == '/' {
        strip_slashes(p.drop_last())
    } else {
        p
    }
}

/// A path's file name: trailing separators are dropped, then everything
/// after the last `/` is taken; where that leaves nothing, or a parent
/// reference, the fallback name stands in.
pub open spec fn base_name(p: Seq<char>) -> Seq<char> {
    let t = strip_slashes(p);
    let b = t.skip(last_slash(t) + 1);
    if b.len() == 0 || b == ".."@ {
        "??"@
    } else {
        b
    }
}

proof fn lemma_strip_slashes_at(p: Seq<char>, e: int)
    requires
        0 <= e <= p.len(),
        forall|j: int| e <= j < p.len() ==> p[j] == '/',
        e > 0 ==> p[e - 1] != '/',
    ensures
        strip_slashes(p) == p.subrange(0, e),
    decreases p.len(),
{
    if e == p.len() {
        assert(p.subrange(0, e) =~= p);
    } else {
        assert(p.last() == '/');
        lemma_strip_slashes_at(p.drop_last(), e);
        assert(p.drop_last().subrange(0, e) =~= p.subrange(0, e));
    }
}

proof fn lemma_last_slash_at(p: Seq<char>, k: int)
    requires
        0 <= k < p.len(),
        p[k] == '/',
        forall|j: int| k < j < p.len() ==> p[j] != '/',
    ensures
        last_slash(p) == k,
    decreases p.len(),
{
    if k < p.len() - 1 {
        assert(p.drop_last() =~= p.subrange(0, p.len() - 1));
        lemma_last_slash_at(p.drop_last(), k);
    }
}

proof fn lemma_last_slash_none(p: Seq<char>)
    requires
        forall|j: int| 0 <= j < p.len() ==> p[j] != '/',
    ensures
        last_slash(p) == -1,
    decreases p.len(),
{
    if p.len() > 0 {
        lemma_last_slash_none(p.drop_last());
    }
}

/// Where the part of a path before `e` ends: one past its last `/`, or
/// the start when it has none.
#[verifier::loop_isolation(false)]
fn after_last_slash(path: &String, e: usize) -> (r: usize)
    requires
        e <= path@.len(),
    ensures
        r <= e,
        r as int == last_slash(path@.subrange(0, e as int)) + 1,
{
    let ghost t = path@.subrange(0, e as int);
    let mut i: usize = e;
    while i > 0
        invariant
            i <= e,
            forall|j: int| i <= j < e ==> path@[j] != '/',
        decreases i,
    {
        i = i - 1;
        if path.as_str().get_char(i) == '/' {
            proof {
                assert(t[i as int] == '/');
                assert forall|j: int| i < j < t.len() implies t[j] != '/' by {
                    assert(t[j] == path@[j]);
                }
                lemma_last_slash_at(t, i as int);
            }
            return i + 1;
        }
    }
    proof {
        assert forall|j: int| 0 <= j < t.len() implies t[j] != '/' by {
            assert(t[j] == path@[j]);
        }
        lemma_last_slash_none(t);
    }
    0
}

/// The file name of a path, as the header and directory-mode output
/// paths use it.
#[verifier::loop_isolation(false)]
pub fn file_name_of(path: &String) -> (r: String)
    ensures
        r@ == base_name(path@),
{
    let len = path.as_str().unicode_len();
    let mut e: usize = len;
    while e > 0 && path.as_str().get_char(e - 1) == '/'
        invariant
            e <= len,
            forall|j: int| e <= j < path@.len() ==> path@[j] == '/',
        decreases e,
    {
        e = e - 1;
    }
    proof {
        lemma_strip_slashes_at(path@, e as int);
    }
    let start = after_last_slash(path, e);
    let b = path.as_str().substring_char(start, e).to_owned();
    proof {
        let t = path@.subrange(0, e as int);
        assert(b@ =~= t.skip(last_slash(t) + 1));
    }
    if b.as_str().is_empty() {
        String::from_str("??")
    } else if b.eq(&String::from_str("..")) {
        String::from_str("??")
    } else {
        b
    }
}

/// The three-line header that every output file starts with, naming the
/// input file it was created from.
pub open spec fn header_of(name: Seq<char>) -> Seq<char> {
    "---\n# DO NOT EDIT\n# Created from template \""@ + name + "\".\n"@
}

/// The concatenation of the serialized documents, each with its own
/// document-start line.
pub open spec fn emit_cat(docs: Seq<ValueModel>) -> Seq<char>
    decreases docs.len(),
{
    if docs.len() == 0 {
        Seq::empty()
    } else {
        emitted_doc(docs[0]) + emit_cat(docs.drop_first())
    }
}

proof fn lemma_emit_cat_push(docs: Seq<ValueModel>, d: ValueModel)
    ensures
        emit_cat(docs.push(d)) == emit_cat(docs) + emitted_doc(d),
    decreases docs.len(),
{
    if docs.len() == 0 {
        assert(docs.push(d)[0] == d);
        assert(docs.push(d).drop_first() =~= Seq::<ValueModel>::empty());
        assert(emit_cat(docs.push(d))
            == emitted_doc(d) + emit_cat(docs.push(d).drop_first()));
        assert(emit_cat(docs.push(d).drop_first()) == emit_cat(Seq::<ValueModel>::empty()));
        assert(emit_cat(Seq::<ValueModel>::empty()) =~= Seq::<char>::empty());
        assert(emitted_doc(d) + Seq::<char>::empty() =~= emitted_doc(d));
        assert(emit_cat(docs) =~= Seq::<char>::empty());
        assert(Seq::<char>::empty() + emitted_doc(d) =~= emitted_doc(d));
        assert(emit_cat(docs) + emitted_doc(d) =~= emitted_doc(d));
        assert(emit_cat(docs.push(d)) == emit_cat(docs) + emitted_doc(d));
    } else {
        assert(docs.push(d)[0] == docs[0]);
        assert(docs.push(d).drop_first() =~= docs.drop_first().push(d));
        lemma_emit_cat_push(docs.drop_first(), d);
        assert(emitted_doc(docs[0]) + (emit_cat(docs.drop_first()) + emitted_doc(d))
            =~= (emitted_doc(docs[0]) + emit_cat(docs.drop_first())) + emitted_doc(d));
    }
}

/// A document set's output text: the header, then the serialized
/// documents, the first document's own start line dropped because the
/// header already supplies one.
pub open spec fn framed(name: Seq<char>, docs: Seq<ValueModel>) -> Seq<char> {
    header_of(name) + if docs.len() == 0 {
        Seq::<char>::empty()
    } else {
        emit_cat(docs).skip(4)
    }
}

/// Serializes the resolved documents of one input file, framed with the
/// header that names it. Serialization cannot fail.
#[verifier::loop_isolation(false)]
pub fn frame_output(file_name: &String, docs: &Vec<Value>) -> (r: String)
    ensures
        r@ == framed(file_name@, models_of(docs@)),
{
    broadcast use lemma_models_of_index;

    let ghost dm = models_of(docs@);
    let mut out = String::from_str("---\n# DO NOT EDIT\n# Created from template \"");
    out.append(file_name.as_str());
    out.append("\".\n");
    proof {
        assert(out@ == header_of(file_name@));
    }
    let mut i: usize = 0;
    while i < docs.len()
        invariant
            i <= docs@.len(),
            out@ == header_of(file_name@) + if i == 0 {
                Seq::<char>::empty()
            } else {
                emit_cat(dm.subrange(0, i as int)).skip(4)
            },
            i > 0 ==> emit_cat(dm.subrange(0, i as int)).len() >= 4,
        decreases docs@.len() - i,
    {
        let ghost done = dm.subrange(0, i as int);
        let piece = emit_document(&docs[i]);
        proof {
            lemma_emit_cat_push(done, dm[i as int]);
            assert(done.push(dm[i as int]) =~= dm.subrange(0, i + 1));
        }
        if i == 0 {
            let plen = piece.as_str().unicode_len();
            let rest = piece.as_str().substring_char(4, plen);
            out.append(rest);
            proof {
                assert(emit_cat(done) =~= Seq::<char>::empty());
                assert(emit_cat(dm.subrange(0, i + 1)) =~= piece@);
                assert(rest@ == emit_cat(dm.subrange(0, i + 1)).skip(4));
            }
        } else {
            out.append(piece.as_str());
            proof {
                let cat = emit_cat(done);
                assert((cat + piece@).skip(4) =~= cat.skip(4) + piece@);
            }
        }
        i = i + 1;
    }
    proof {
        assert(dm.subrange(0, docs@.len() as int) =~= dm);
        if docs@.len() == 0 {
            assert(out@ =~= framed(file_name@, dm));
        }
    }
    out
}

/// The resolved documents of one input file, each substituted against a
/// fresh trail; the first failure aborts.
pub open spec fn subst_docs(
    reg: Map<Seq<char>, ValueModel>,
    docs: Seq<ValueModel>,
) -> Result<Seq<ValueModel>, ErrorModel>
    decreases docs.len(),
{
    if docs.len() == 0 {
        Ok(Seq::empty())
    } else {
        match subst_value(reg, Seq::empty(), docs[0]) {
            Err(e) => Err(e),
            Ok(v) => match subst_docs(reg, docs.drop_first()) {
                Err(e) => Err(e),
                Ok(rest) => Ok(seq![v] + rest),
            },
        }
    }
}

proof fn lemma_subst_docs_push(reg: Map<Seq<char>, ValueModel>, docs: Seq<ValueModel>, d: ValueModel)
    ensures
        subst_docs(reg, docs.push(d)) == (match subst_docs(reg, docs) {
            Err(e) => Err::<Seq<ValueModel>, ErrorModel>(e),
            Ok(r1) => match subst_value(reg, Seq::empty(), d) {
                Err(e) => Err(e),
                Ok(v) => Ok(r1.push(v)),
            },
        }),
    decreases docs.len(),
{
    if docs.len() == 0 {
        assert(docs.push(d)[0] == d);
        assert(docs.push(d).drop_first() =~= Seq::<ValueModel>::empty());
        match subst_value(reg, Seq::empty(), d) {
            Ok(v) => {
                assert(seq![v] + Seq::<ValueModel>::empty() =~= Seq::<ValueModel>::empty().push(v));
            },
            Err(_) => {},
        }
    } else {
        assert(docs.push(d)[0] == docs[0]);
        assert(docs.push(d).drop_first() =~= docs.drop_first().push(d));
        lemma_subst_docs_push(reg, docs.drop_first(), d);
        match (subst_value(reg, Seq::empty(), docs[0]), subst_docs(reg, docs.drop_first()),
            subst_value(reg, Seq::empty(), d)) {
            (Ok(v0), Ok(r1), Ok(v)) => {
                assert(seq![v0] + r1.push(v) =~= (seq![v0] + r1).push(v));
            },
            _ => {},
        }
    }
}

/// Substitutes every top-level document of one input file, a fresh trail
/// for each.
#[verifier::loop_isolation(false)]
pub fn substitute_documents(docs: &Vec<Value>, registry: &Registry) -> (r: Result<
    Vec<Value>,
    Error,
>)
    ensures
        r matches Ok(rs) ==> subst_docs(registry@, models_of(docs@))
            == Ok::<Seq<ValueModel>, ErrorModel>(models_of(rs@)),
        r matches Err(e) ==> subst_docs(registry@, models_of(docs@))
            == Err::<Seq<ValueModel>, ErrorModel>(error_model(e)),
{
    broadcast use lemma_models_of_index;

    let ghost dm = models_of(docs@);
    let mut out: Vec<Value> = Vec::new();
    proof {
        assert(models_of(out@) =~= Seq::<ValueModel>::empty());
        assert(dm.subrange(0, 0) =~= Seq::<ValueModel>::empty());
    }
    let mut i: usize = 0;
    while i < docs.len()
        invariant
            i <= docs@.len(),
            subst_docs(registry@, dm.subrange(0, i as int))
                == Ok::<Seq<ValueModel>, ErrorModel>(models_of(out@)),
        decreases docs@.len() - i,
    {
        let ghost done = dm.subrange(0, i as int);
        proof {
            lemma_subst_docs_push(registry@, done, dm[i as int]);
            assert(done.push(dm[i as int]) =~= dm.subrange(0, i + 1));
        }
        match substitute(&docs[i], registry) {
            Err(e) => {
                proof {
                    lemma_subst_docs_err_extend(registry@, dm, i as int);
                }
                return Err(e);
            },
            Ok(v) => {
                let ghost out0 = out@;
                let ghost vm = model_of(v);
                out.push(v);
                proof {
                    assert(models_of(out@) =~= models_of(out0).push(vm));
                }
            },
        }
        i = i + 1;
    }
    proof {
        assert(dm.subrange(0, docs@.len() as int) =~= dm);
    }
    Ok(out)
}

/// Where one input file's output goes: into the output directory under
/// the input's file name, or to the single output path.
pub open spec fn dest_path(out_path: Seq<char>, output_is_dir: bool, name: Seq<char>) -> Seq<char> {
    if output_is_dir {
        joined_path(out_path, name)
    } else {
        out_path
    }
}

/// The documents of every input file, parsed, each input's file name
/// kept beside them; the first text that fails to parse gives its
/// scanner message.
pub open spec fn parsed_inputs(
    inputs: Seq<(Seq<char>, Seq<char>)>,
) -> Result<Seq<(Seq<char>, Seq<ValueModel>)>, Seq<char>>
    decreases inputs.len(),
{
    if inputs.len() == 0 {
        Ok(Seq::empty())
    } else {
        match parsed_docs(inputs[0].1) {
            Err(m) => Err(m),
            Ok(docs) => match parsed_inputs(inputs.drop_first()) {
                Err(m) => Err(m),
                Ok(rest) => Ok(seq![(inputs[0].0, docs)] + rest),
            },
        }
    }
}

/// The (output path, output text) pairs of a batch of parsed document
/// sets, in input order; the first failure aborts the batch.
pub open spec fn outputs_spec(
    reg: Map<Seq<char>, ValueModel>,
    out_path: Seq<char>,
    output_is_dir: bool,
    sets: Seq<(Seq<char>, Seq<ValueModel>)>,
) -> Result<Seq<(Seq<char>, Seq<char>)>, ErrorModel>
    decreases sets.len(),
{
    if sets.len() == 0 {
        Ok(Seq::empty())
    } else {
        match subst_docs(reg, sets[0].1) {
            Err(e) => Err(e),
            Ok(rs) => match outputs_spec(reg, out_path, output_is_dir, sets.drop_first()) {
                Err(e) => Err(e),
                Ok(rest) => Ok(
                    seq![(dest_path(out_path, output_is_dir, sets[0].0), framed(sets[0].0, rs))]
                        + rest,
                ),
            },
        }
    }
}

/// The views of (file name, text) pairs, elementwise.
pub open spec fn str_pairs_of(s: Seq<(String, String)>) -> Seq<(Seq<char>, Seq<char>)> {
    s.map_values(|p: (String, String)| (p.0@, p.1@))
}

/// What a whole run produces: nothing if input and output modes
/// disagree; otherwise the inputs are parsed first, then the registry is
/// built from the snippet texts, then every document set is resolved and
/// framed against it, the first failure anywhere aborting the batch.
pub open spec fn run_spec(
    input_is_dir: bool,
    output_is_dir: bool,
    out_path: Seq<char>,
    inputs: Seq<(Seq<char>, Seq<char>)>,
    snips: Seq<Seq<char>>,
) -> Result<Seq<(Seq<char>, Seq<char>)>, ErrorModel> {
    if input_is_dir != output_is_dir {
        Err(ErrorModel::ModeMismatch(input_is_dir))
    } else {
        match parsed_inputs(inputs) {
            Err(m) => Err(ErrorModel::Parse(m)),
            Ok(sets) => match reg_after_texts(Map::empty(), snips) {
                Err(e) => Err(e),
                Ok(m) => outputs_spec(m, out_path, output_is_dir, sets),
            },
        }
    }
}

/// The parsed document sets that a run's first phase gathers, with each
/// input's file name.
pub open spec fn set_models(s: Seq<(String, Vec<Value>)>) -> Seq<(Seq<char>, Seq<ValueModel>)> {
    s.map_values(|p: (String, Vec<Value>)| (p.0@, models_of(p.1@)))
}

/// Runs a whole batch on in-memory data: `inputs` pairs each input's file
/// name with its YAML text; the result pairs each output path with the
/// text to write there. Input and output must both be directories or both
/// single files; inputs are parsed before any snippet text is looked at;
/// the first failure aborts the batch.
///
/// Parse and emission failures are decided by the external YAML library;
/// every other outcome is exactly `run_spec`.
#[verifier::loop_isolation(false)]
pub fn run(
    input_is_dir: bool,
    output_is_dir: bool,
    output_path: &String,
    inputs: &Vec<(String, String)>,
    snip_texts: &Vec<String>,
) -> (r: Result<Vec<(String, String)>, Error>)
    ensures
        r matches Ok(outs) ==> run_spec(input_is_dir, output_is_dir, output_path@,
            str_pairs_of(inputs@), strs_of(snip_texts@))
            == Ok::<Seq<(Seq<char>, Seq<char>)>, ErrorModel>(str_pairs_of(outs@)),
        r matches Err(e) ==> run_spec(input_is_dir, output_is_dir,
            output_path@, str_pairs_of(inputs@), strs_of(snip_texts@))
            == Err::<Seq<(Seq<char>, Seq<char>)>, ErrorModel>(error_model(e)),
{
    broadcast use lemma_models_of_index, lemma_registry_finite;

    let ghost im = str_pairs_of(inputs@);
    if input_is_dir != output_is_dir {
        return Err(Error::ModeMismatch(input_is_dir));
    }
    // Inputs are parsed first, as the driver reads them first.
    let mut parsed: Vec<(String, Vec<Value>)> = Vec::new();
    proof {
        assert(im.skip(0) =~= im);
        assert(set_models(parsed@) =~= Seq::<(Seq<char>, Seq<ValueModel>)>::empty());
        match parsed_inputs(im) {
            Ok(rest) => {
                assert(set_models(parsed@) + rest =~= rest);
            },
            Err(_) => {},
        }
    }
    let mut i: usize = 0;
    while i < inputs.len()
        invariant
            i <= inputs@.len(),
            parsed_inputs(im) == (match parsed_inputs(im.skip(i as int)) {
                Err(msg) => Err::<Seq<(Seq<char>, Seq<ValueModel>)>, Seq<char>>(msg),
                Ok(rest) => Ok(set_models(parsed@) + rest),
            }),
        decreases inputs@.len() - i,
    {
        proof {
            assert(im.skip(i as int)[0] == im[i as int]);
            assert(im.skip(i as int).drop_first() =~= im.skip(i + 1));
        }
        match parse_documents(inputs[i].1.as_str()) {
            Err(m) => {
                proof {
                    assert(parsed_inputs(im) == Err::<Seq<(Seq<char>, Seq<ValueModel>)>,
                        Seq<char>>(m@));
                }
                return Err(Error::Parse(m));
            },
            Ok(docs) => {
                let ghost sets0 = set_models(parsed@);
                let ghost entry = (im[i as int].0, models_of(docs@));
                parsed.push((inputs[i].0.clone(), docs));
                proof {
                    assert(set_models(parsed@) =~= sets0.push(entry));
                    match parsed_inputs(im.skip(i + 1)) {
                        Ok(rest) => {
                            assert(sets0 + (seq![entry] + rest) =~= sets0.push(entry) + rest);
                        },
                        Err(_) => {},
                    }
                }
            },
        }
        i = i + 1;
    }
    let ghost sets = set_models(parsed@);
    proof {
        assert(im.skip(inputs@.len() as int) =~= Seq::<(Seq<char>, Seq<char>)>::empty());
        assert(sets + Seq::<(Seq<char>, Seq<ValueModel>)>::empty() =~= sets);
        assert(parsed_inputs(im) == Ok::<Seq<(Seq<char>, Seq<ValueModel>)>, Seq<char>>(sets));
    }
    // Then the registry, from the snippet texts.
    let registry = match build_registry(snip_texts) {
        Err(e) => {
            return Err(e);
        },
        Ok(reg) => reg,
    };
    let ghost m = registry@;
    // Then every document set, in order.
    let mut outs: Vec<(String, String)> = Vec::new();
    proof {
        assert(sets.skip(0) =~= sets);
    }
    let mut i: usize = 0;
    while i < parsed.len()
        invariant
            i <= parsed@.len(),
            sets == set_models(parsed@),
            outputs_spec(m, output_path@, output_is_dir, sets)
                == (match outputs_spec(m, output_path@, output_is_dir, sets.skip(i as int)) {
                Err(e) => Err::<Seq<(Seq<char>, Seq<char>)>, ErrorModel>(e),
                Ok(rest) => Ok(str_pairs_of(outs@) + rest),
            }),
        decreases parsed@.len() - i,
    {
        proof {
            assert(sets.skip(i as int)[0] == sets[i as int]);
            assert(sets.skip(i as int).drop_first() =~= sets.skip(i + 1));
            assert(sets[i as int] == (parsed@[i as int].0@, models_of(parsed@[i as int].1@)));
        }
        let resolved = match substitute_documents(&parsed[i].1, &registry) {
            Err(e) => {
                return Err(e);
            },
            Ok(rs) => rs,
        };
        let text = frame_output(&parsed[i].0, &resolved);
        let dest = if output_is_dir {
            join_path(output_path, &parsed[i].0)
        } else {
            output_path.clone()
        };
        let ghost out0 = str_pairs_of(outs@);
        let ghost entry = (dest_path(output_path@, output_is_dir, sets[i as int].0), text@);
        outs.push((dest, text));
        proof {
            assert(str_pairs_of(outs@) =~= out0.push(entry));
            match outputs_spec(m, output_path@, output_is_dir, sets.skip(i + 1)) {
                Err(_) => {},
                Ok(rest) => {
                    assert(out0 + (seq![entry] + rest) =~= out0.push(entry) + rest);
                },
            }
        }
        i = i + 1;
    }
    proof {
        assert(sets.skip(parsed@.len() as int) =~= Seq::<(Seq<char>, Seq<ValueModel>)>::empty());
        assert(str_pairs_of(outs@) + Seq::<(Seq<char>, Seq<char>)>::empty()
            =~= str_pairs_of(outs@));
    }
    Ok(outs)
}

/// A failure on a prefix of the documents is the whole run's failure.
proof fn lemma_subst_docs_err_extend(reg: Map<Seq<char>, ValueModel>, docs: Seq<ValueModel>, i: int)
    requires
        0 <= i < docs.len(),
        subst_docs(reg, docs.subrange(0, i + 1)) is Err,
    ensures
        subst_docs(reg, docs) == subst_docs(reg, docs.subrange(0, i + 1)),
    decreases i + 1,
{
    if i == 0 {
        assert(docs.subrange(0, 1)[0] == docs[0]);
        if subst_value(reg, Seq::empty(), docs[0]) is Ok {
            assert(docs.subrange(0, 1).drop_first() =~= Seq::<ValueModel>::empty());
        }
    } else {
        assert(docs.subrange(0, i + 1)[0] == docs[0]);
        assert(docs.subrange(0, i + 1).drop_first() =~= docs.drop_first().subrange(0, i));
        if subst_value(reg, Seq::empty(), docs[0]) is Ok {
            lemma_subst_docs_err_extend(reg, docs.drop_first(), i - 1);
        }
    }
}

} // verus!
