//! Codec options: named values in the order in which they were first set.
use oxideav_core::CodecOptions;
use vstd::prelude::*;

verus! {

/// `oxideav_core::CodecOptions`: the bag of options that codecs take.
#[verifier::external_type_specification]
#[verifier::external_body]
pub struct ExCodecOptions(oxideav_core::CodecOptions);

/// Options: names and values, in the order in which the names were first set.
pub type Opts = Seq<(Seq<char>, Seq<char>)>;

/// What a bag of options holds.
pub uninterp spec fn options_of(o: CodecOptions) -> Opts;

/// Options with one set: a name that is there already keeps its place.
pub open spec fn put(o: Opts, k: Seq<char>, v: Seq<char>) -> Opts
    decreases o.len(),
{
    if o.len() == 0 {
        seq![(k, v)]
    } else if o[0].0 == k {
        o.update(0, (k, v))
    } else {
        seq![o[0]] + put(o.drop_first(), k, v)
    }
}

/// `CodecOptions::new` gives a bag that holds nothing.
#[verifier::external_body]
pub(crate) fn options_new() -> (o: CodecOptions)
    ensures
        options_of(o) == Opts::empty(),
{
    CodecOptions::new()
}

/// `CodecOptions::insert` replaces the value of the first entry with the name, or appends an
/// entry where none has it.
#[verifier::external_body]
pub(crate) fn options_insert(o: &mut CodecOptions, k: String, v: String)
    ensures
        options_of(*final(o)) == put(options_of(*old(o)), k@, v@),
{
    o.insert(k, v)
}

/// Whether no two options have the same name.
pub open spec fn distinct_names(o: Opts) -> bool {
    forall|i: int, j: int| 0 <= i < j < o.len() ==> (#[trigger] o[i]).0 != (#[trigger] o[j]).0
}

/// The value of the first option with the name.
pub open spec fn lookup(o: Opts, k: Seq<char>) -> Option<Seq<char>>
    decreases o.len(),
{
    if o.len() == 0 {
        None
    } else if o[0].0 == k {
        Some(o[0].1)
    } else {
        lookup(o.drop_first(), k)
    }
}

/// A value that was set is found under its name, other names keep what they had, and names stay
/// distinct.
pub proof fn law_put(o: Opts, k: Seq<char>, v: Seq<char>, j: Seq<char>)
    ensures
        lookup(put(o, k, v), j) == (if j == k { Some(v) } else { lookup(o, j) }),
        distinct_names(o) ==> distinct_names(put(o, k, v)),
    decreases o.len(),
{
    let p = put(o, k, v);
    if o.len() == 0 {
        assert(p.drop_first() =~= Opts::empty());
        assert(lookup(Opts::empty(), j) is None);
    } else if o[0].0 == k {
        assert(p.drop_first() =~= o.drop_first());
        assert(p[0] == (k, v));
        if distinct_names(o) {
            assert forall|a: int, b: int| 0 <= a < b < p.len() implies (#[trigger] p[a]).0 != (#[trigger] p[b]).0 by {
                assert(o[a].0 != o[b].0);
            }
        }
    } else {
        let rest = o.drop_first();
        law_put(rest, k, v, j);
        assert(p.drop_first() =~= put(rest, k, v));
        if distinct_names(o) {
            assert(distinct_names(rest));
            lemma_put_names(rest, k, v, o[0].0);
            assert forall|a: int, b: int| 0 <= a < b < p.len() implies (#[trigger] p[a]).0 != (#[trigger] p[b]).0 by {
                let q = put(rest, k, v);
                assert(p[b] == q[b - 1]);
                if a > 0 {
                    assert(p[a] == q[a - 1]);
                }
            }
        }
    }
}

/// Setting an option brings in no other name.
proof fn lemma_put_names(o: Opts, k: Seq<char>, v: Seq<char>, x: Seq<char>)
    requires
        x != k,
        forall|i: int| 0 <= i < o.len() ==> (#[trigger] o[i]).0 != x,
    ensures
        forall|i: int| 0 <= i < put(o, k, v).len() ==> (#[trigger] put(o, k, v)[i]).0 != x,
    decreases o.len(),
{
    let p = put(o, k, v);
    if o.len() > 0 && o[0].0 != k {
        let rest = o.drop_first();
        assert forall|i: int| 0 <= i < rest.len() implies (#[trigger] rest[i]).0 != x by {
            assert(rest[i] == o[i + 1]);
        }
        lemma_put_names(rest, k, v, x);
        assert forall|i: int| 0 <= i < p.len() implies (#[trigger] p[i]).0 != x by {
            if i > 0 {
                assert(p[i] == put(rest, k, v)[i - 1]);
            }
        }
    } else {
        assert forall|i: int| 0 <= i < p.len() implies (#[trigger] p[i]).0 != x by {
            if i > 0 {
                assert(p[i] == o[i]);
            }
        }
    }
}

/// Options with one set for each row from the `i`th on.
pub open spec fn each<T>(o: Opts, rows: Seq<T>, i: int, f: spec_fn(Opts, int, T) -> Opts) -> Opts
    decreases rows.len() - i,
{
    if i >= rows.len() { o } else { each(f(o, i, rows[i]), rows, i + 1, f) }
}

}
