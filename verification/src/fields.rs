//! Building an entry's custom-field set from an input list: insertion
//! order is kept, duplicate names collapse onto their first slot with the
//! last value winning.

use vstd::prelude::*;

use vstd::pervasive::VecAdditionalExecFns;

use crate::model::{CustomField, FieldView, views_of};
use crate::mutate::{dedup_fields, field_index, field_step};

verus! {

/// Shifts `field_index` past a scanned prefix with no match.
proof fn lemma_field_index_shift(fs: Seq<FieldView>, name: Seq<char>, i: int)
    requires
        0 <= i <= fs.len(),
        forall|j: int| 0 <= j < i ==> fs[j].name != name,
    ensures
        field_index(fs, name) == match field_index(fs.skip(i), name) {
            Some(k) => Some(i + k),
            None => None,
        },
    decreases i,
{
    if i == 0 {
        assert(fs.skip(0) =~= fs);
    } else {
        lemma_field_index_shift(fs, name, i - 1);
        assert(fs.skip(i - 1).first() == fs[i - 1]);
        assert(fs.skip(i - 1).drop_first() =~= fs.skip(i));
    }
}

/// Index of the first field of `fs` named `name`.
pub fn field_position(fs: &Vec<CustomField>, name: &String) -> (r: Option<usize>)
    ensures
        match r {
            Some(k) => field_index(views_of(fs@), name@) == Some(k as int) && k < fs@.len(),
            None => field_index(views_of(fs@), name@) is None,
        },
{
    let ghost s = views_of(fs@);
    let mut i: usize = 0;
    while i < fs.len()
        invariant
            i <= fs@.len(),
            s == views_of(fs@),
            forall|j: int| 0 <= j < i ==> s[j].name != name@,
        decreases fs@.len() - i,
    {
        if fs[i].name == *name {
            proof {
                lemma_field_index_shift(s, name@, i as int);
                assert(s.skip(i as int).first() == s[i as int]);
            }
            return Some(i);
        }
        i = i + 1;
    }
    proof {
        lemma_field_index_shift(s, name@, i as int);
        assert(s.skip(i as int) =~= Seq::<FieldView>::empty());
    }
    None
}

/// Collects the custom-field set declared by `src`.
pub fn build_custom_fields(src: &Vec<CustomField>) -> (r: Vec<CustomField>)
    ensures
        views_of(r@) == dedup_fields(views_of(src@)),
{
    let ghost s = views_of(src@);
    let mut r: Vec<CustomField> = Vec::new();
    proof {
        assert(s.take(0) =~= Seq::<FieldView>::empty());
        assert(views_of(r@) =~= dedup_fields(s.take(0)));
    }
    let mut i: usize = 0;
    while i < src.len()
        invariant
            i <= src@.len(),
            s == views_of(src@),
            views_of(r@) == dedup_fields(s.take(i as int)),
        decreases src@.len() - i,
    {
        let f = &src[i];
        let copy = CustomField { name: f.name.clone(), value: f.value.clone(), protected: f.protected };
        proof {
            assert(copy@ == s[i as int]);
            assert(s.take(i + 1).drop_last() =~= s.take(i as int));
            assert(s.take(i + 1).last() == s[i as int]);
        }
        let ghost before = views_of(r@);
        match field_position(&r, &f.name) {
            Some(k) => {
                r.set(k, copy);
                proof {
                    assert(views_of(r@) =~= before.update(k as int, s[i as int]));
                }
            },
            None => {
                r.push(copy);
                proof {
                    assert(views_of(r@) =~= before.push(s[i as int]));
                }
            },
        }
        proof {
            assert(views_of(r@) == field_step(before, s[i as int]));
            assert(views_of(r@) == dedup_fields(s.take(i + 1)));
        }
        i = i + 1;
    }
    proof {
        assert(s.take(s.len() as int) =~= s);
    }
    r
}

} // verus!
