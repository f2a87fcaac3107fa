//! Table I/O for CSV / JSON: the table shape, cell spellings, reading a
//! file's bytes into a table and column type inference. Reading and
//! writing the files themselves is the caller's.

use vstd::prelude::*;

use crate::error::LError;
use crate::k::{K, KV, kseq_view, strs, type_tag_of};
use crate::text::{dec_int, dec_nat, push_int, push_nat, push_str};

pub mod temporal;
pub mod csv;
pub mod json;

verus! {

/// `names ! cols` flipped into a table.
pub open spec fn table_kv(names: Seq<Seq<char>>, cols: Seq<KV>) -> KV {
    KV::Table(Box::new(KV::Dict(Box::new(KV::SymbolVec(names)), Box::new(KV::List(cols)))))
}

/// A table whose wrapped value is not a dictionary.
pub open spec fn table_malformed(k: KV) -> bool {
    k matches KV::Table(d) && !(*d is Dict)
}

/// The column dictionary of a table, or the value itself.
pub open spec fn column_dict(k: KV) -> KV {
    match k {
        KV::Table(d) => *d,
        _ => k,
    }
}

/// Column names and columns of a table or bare column dictionary, or the
/// error text (prefixed by `ctx`) saying why there are none.
pub open spec fn table_parts(k: KV, ctx: Seq<char>) -> Result<(Seq<Seq<char>>, Seq<KV>), Seq<char>> {
    if !(k is Table || k is Dict) {
        Err(ctx + ": expected table, got type "@ + dec_int(type_tag_of(k)))
    } else {
        match column_dict(k) {
            KV::Dict(keys, vals) => match *keys {
                KV::SymbolVec(names) => match *vals {
                    KV::List(cols) => if names.len() == cols.len() {
                        Ok((names, cols))
                    } else {
                        Err(ctx + ": "@ + dec_nat(names.len()) + " names but "@ + dec_nat(cols.len())
                            + " columns"@)
                    },
                    _ => Err(ctx + ": columns must be a list"@),
                },
                _ => Err(ctx + ": names must be symbols"@),
            },
            _ => Err(Seq::empty()),
        }
    }
}

fn type_error(ctx: &str, what: &str) -> (e: LError)
    ensures
        e matches LError::Type(m) && m@ == ctx@ + what@,
{
    let mut m = String::new();
    push_str(&mut m, ctx);
    push_str(&mut m, what);
    LError::Type(m)
}

fn clone_names(v: &Vec<String>) -> (r: Vec<String>)
    ensures
        strs(r@) == strs(v@),
{
    let r = v.clone();
    assert(strs(r@) =~= strs(v@)) by {
        assert forall|i: int| 0 <= i < v@.len() implies r@[i]@ == v@[i]@ by {
            assert(cloned::<String>(v[i], r[i]));
        }
    }
    r
}

/// Column names and columns of a table (or bare column dictionary); an
/// error names `ctx`. A table must wrap a dictionary.
pub fn unwrap_table<'a>(k: &'a K, ctx: &str) -> (r: Result<(Vec<String>, &'a Vec<K>), LError>)
    requires
        !table_malformed(k@),
    ensures
        match r {
            Ok((names, cols)) => table_parts(k@, ctx@) == Ok::<_, Seq<char>>(
                (strs(names@), kseq_view(cols@)),
            ),
            Err(e) => e matches LError::Type(m) && table_parts(k@, ctx@) == Err::<
                (Seq<Seq<char>>, Seq<KV>),
                _,
            >(m@),
        },
{
    proof {
        reveal_with_fuel(K::view, 3);
    }
    let dict: &K = match k {
        K::Table(d) => d,
        K::Dict(..) => k,
        _ => {
            let mut m = String::new();
            push_str(&mut m, ctx);
            push_str(&mut m, ": expected table, got type ");
            push_int(&mut m, k.type_tag() as i64);
            return Err(LError::Type(m));
        },
    };
    let (keys, vals) = match dict {
        K::Dict(a, b) => (&**a, &**b),
        _ => {
            proof {
                assert(false);
            }
            return Err(LError::Type(String::new()));
        },
    };
    let names = match keys {
        K::SymbolVec(s) => clone_names(s),
        _ => return Err(type_error(ctx, ": names must be symbols")),
    };
    let cols = match vals {
        K::List(v) => v,
        _ => return Err(type_error(ctx, ": columns must be a list")),
    };
    proof {
        crate::k::lemma_kseq_view(cols@);
    }
    if names.len() != cols.len() {
        let mut m = String::new();
        push_str(&mut m, ctx);
        push_str(&mut m, ": ");
        push_nat(&mut m, names.len() as u64);
        push_str(&mut m, " names but ");
        push_nat(&mut m, cols.len() as u64);
        push_str(&mut m, " columns");
        return Err(LError::Type(m));
    }
    Ok((names, cols))
}

/// The table `names ! cols` (the inverse of `unwrap_table`).
pub fn table(names: Vec<String>, cols: Vec<K>) -> (t: K)
    ensures
        t@ == table_kv(strs(names@), kseq_view(cols@)),
{
    proof {
        reveal_with_fuel(K::view, 3);
    }
    K::Table(Box::new(K::Dict(Box::new(K::SymbolVec(names)), Box::new(K::List(cols)))))
}

/// Taking a table apart gives back the names and columns it was built
/// from, whenever there are as many names as columns.
pub proof fn lemma_table_parts(names: Seq<Seq<char>>, cols: Seq<KV>, ctx: Seq<char>)
    requires
        names.len() == cols.len(),
    ensures
        !table_malformed(table_kv(names, cols)),
        table_parts(table_kv(names, cols), ctx) == Ok::<_, Seq<char>>((names, cols)),
{
}

/// Law: a table counts its columns: the table built from `cols` has
/// element count `cols.len()`.
pub proof fn lemma_table_len(names: Seq<Seq<char>>, cols: Seq<KV>)
    ensures
        crate::k::count_of(table_kv(names, cols)) == cols.len(),
{
    reveal_with_fuel(crate::k::count_of, 2);
}

} // verus!
