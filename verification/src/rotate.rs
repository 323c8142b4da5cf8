//! Rotating the pages of a document by quarter turns.

use crate::document::ObjectGraph;
use crate::error::{ParseError, PdfError, ValidationError};
use crate::graph::TableModel;
use crate::names::{ascii, name};
use crate::object::{dict_get, dict_set, lemma_dict_set_same, Object, ObjectId, ObjectModel};
use crate::operations::pages_of;
use crate::pages::page_ids;
use vstd::prelude::*;

verus! {

/// The rotation that a page holds under `Rotate`: 0 where it holds none,
/// or no integer.
pub open spec fn rotation_of(page: ObjectModel) -> int {
    match page {
        ObjectModel::Dictionary(dict) => match dict_get(dict, ascii("Rotate"@)) {
            Some(ObjectModel::Integer(degrees)) => degrees,
            _ => 0,
        },
        _ => 0,
    }
}

/// The rotation `current` turned by `angle`: their sum modulo 360, from 0
/// up to 359.
pub open spec fn turned(current: int, angle: int) -> int {
    (current + angle) % 360
}

/// `page` turned by `angle`: a dictionary holds the turned rotation under
/// `Rotate`, anything else is left as it is.
pub open spec fn rotate_page(page: ObjectModel, angle: int) -> ObjectModel {
    match page {
        ObjectModel::Dictionary(dict) => ObjectModel::Dictionary(
            dict_set(
                dict,
                ascii("Rotate"@),
                ObjectModel::Integer(turned(rotation_of(page), angle)),
            ),
        ),
        _ => page,
    }
}

/// `table` with the object under `id` turned by `angle`, where there is one.
pub open spec fn rotate_at(table: TableModel, id: ObjectId, angle: int) -> TableModel {
    if table.contains_key(id) {
        table.insert(id, rotate_page(table[id], angle))
    } else {
        table
    }
}

/// `table` with each of `pages` turned by `angle`, one after the other.
pub open spec fn rotate_all(table: TableModel, pages: Seq<ObjectId>, angle: int) -> TableModel
    decreases pages.len(),
{
    if pages.len() == 0 {
        table
    } else {
        rotate_at(rotate_all(table, pages.drop_last(), angle), pages.last(), angle)
    }
}

/// The remainder of `x` modulo 360, from 0 up to 359.
pub fn rem_360(x: i64) -> (r: i64)
    ensures
        r == x % 360,
        0 <= r < 360,
{
    if x >= 0 {
        let r = (x as u64) % 360;
        r as i64
    } else {
        let y: u64 = (-(x + 1)) as u64;
        let r = y % 360;
        assert((x as int) % 360 == 359 - (y as int) % 360) by {
            let q = (y as int) / 360;
            let m = (y as int) % 360;
            assert(y as int == 360 * q + m) by {
                vstd::arithmetic::div_mod::lemma_fundamental_div_mod(y as int, 360);
            }
            assert(x as int == 360 * (-q - 1) + (359 - m));
            vstd::arithmetic::div_mod::lemma_fundamental_div_mod_converse(
                x as int,
                360,
                -q - 1,
                359 - m,
            );
        }
        (359 - r) as i64
    }
}

/// The rotation `current` turned by `angle`.
pub fn turn(current: i64, angle: i32) -> (r: i64)
    ensures
        r == turned(current as int, angle as int),
{
    let a = rem_360(current);
    let b = rem_360(angle as i64);
    let sum = a + b;
    proof {
        vstd::arithmetic::div_mod::lemma_add_mod_noop(current as int, angle as int, 360);
        if sum >= 360 {
            vstd::arithmetic::div_mod::lemma_mod_sub_multiples_vanish(sum as int, 360);
            vstd::arithmetic::div_mod::lemma_small_mod((sum - 360) as nat, 360);
        } else {
            vstd::arithmetic::div_mod::lemma_small_mod(sum as nat, 360);
        }
    }
    if sum >= 360 {
        sum - 360
    } else {
        sum
    }
}

/// Turns `object` by `angle`, where it is a dictionary.
pub fn rotate_object(object: &mut Object, angle: i32)
    ensures
        final(object)@ == rotate_page(old(object)@, angle as int),
{
    proof {
        reveal_strlit("Rotate");
    }
    match object {
        Object::Dictionary(dict) => {
            let current: i64 = match dict.get(name("Rotate").as_slice()) {
                Some(Object::Integer(degrees)) => *degrees,
                _ => 0,
            };
            dict.set(name("Rotate"), Object::Integer(turn(current, angle)));
        },
        _ => {},
    }
}

/// Turns every page of the document by `angle` degrees: a page's new
/// rotation is its rotation plus `angle`, modulo 360. An angle that is no
/// multiple of 90 is refused, and a document without a page list fails,
/// both before any page is touched.
pub fn rotate_pdf(graph: &mut ObjectGraph, angle: i32) -> (r: Result<(), PdfError>)
    ensures
        final(graph).trailer@ == old(graph).trailer@,
        match r {
            Ok(()) => {
                &&& angle % 90 == 0
                &&& pages_of(*old(graph)) is Some
                &&& final(graph).objects@ == rotate_all(
                    old(graph).objects@,
                    pages_of(*old(graph))->0,
                    angle as int,
                )
            },
            Err(PdfError::Validation(ValidationError::InvalidAngle)) => {
                &&& angle % 90 != 0
                &&& final(graph).objects@ == old(graph).objects@
            },
            Err(PdfError::Parse(ParseError::MissingCatalog)) => {
                &&& angle % 90 == 0
                &&& pages_of(*old(graph)) is None
                &&& final(graph).objects@ == old(graph).objects@
            },
            Err(_) => false,
        },
{
    let quarter = rem_360(angle as i64);
    proof {
        assert((angle as int) % 90 == 0 <==> quarter == 0 || quarter == 90 || quarter == 180
            || quarter == 270) by {
            vstd::arithmetic::div_mod::lemma_fundamental_div_mod(angle as int, 360);
            let q = (angle as int) / 360;
            assert(angle as int == 90 * (4 * q) + quarter);
            if quarter == 0 || quarter == 90 || quarter == 180 || quarter == 270 {
                let k = 4 * q + quarter / 90;
                assert(angle as int == 90 * k + 0);
                vstd::arithmetic::div_mod::lemma_fundamental_div_mod_converse(
                    angle as int,
                    90,
                    k,
                    0,
                );
            } else {
                let k = 4 * q + quarter / 90;
                let m = quarter % 90;
                assert(angle as int == 90 * k + m);
                vstd::arithmetic::div_mod::lemma_fundamental_div_mod_converse(
                    angle as int,
                    90,
                    k,
                    m as int,
                );
            }
        }
    }
    if !(quarter == 0 || quarter == 90 || quarter == 180 || quarter == 270) {
        return Err(PdfError::Validation(ValidationError::InvalidAngle));
    }
    let pages = match page_ids(graph) {
        Ok(pages) => pages,
        Err(_) => {
            return Err(PdfError::Parse(ParseError::MissingCatalog));
        },
    };
    let ghost before = graph.objects@;
    let ghost trailer = graph.trailer@;
    let mut i: usize = 0;
    assert(pages@.take(0) =~= Seq::<ObjectId>::empty());
    while i < pages.len()
        invariant
            0 <= i <= pages.len(),
            graph.trailer@ == trailer,
            graph.objects@ == rotate_all(before, pages@.take(i as int), angle as int),
        decreases pages.len() - i,
    {
        let id = pages[i];
        let ghost table = graph.objects@;
        proof {
            assert(pages@.take(i + 1).drop_last() =~= pages@.take(i as int));
            assert(pages@.take(i + 1).last() == id);
        }
        match graph.objects.get_mut(id) {
            Ok(object) => {
                rotate_object(object, angle);
            },
            Err(_) => {},
        }
        assert(graph.objects@ =~= rotate_at(table, id, angle as int));
        i += 1;
    }
    assert(pages@.take(pages.len() as int) =~= pages@);
    Ok(())
}

/// Turning by one angle and then by another is turning by their sum.
pub proof fn law_turns_add(page: ObjectModel, first: int, second: int)
    ensures
        rotate_page(rotate_page(page, first), second) == rotate_page(page, first + second),
        turned(turned(rotation_of(page), first), second) == turned(rotation_of(page), first + second),
{
    let key = ascii("Rotate"@);
    let c = rotation_of(page);
    assert(turned(turned(c, first), second) == turned(c, first + second)) by {
        vstd::arithmetic::div_mod::lemma_add_mod_noop(c + first, second, 360);
        vstd::arithmetic::div_mod::lemma_mod_twice(c + first, 360);
        vstd::arithmetic::div_mod::lemma_add_mod_noop_right(second, c + first, 360);
    }
    match page {
        ObjectModel::Dictionary(dict) => {
            lemma_dict_set_same(dict, key, ObjectModel::Integer(turned(c, first)));
            lemma_dict_set_twice(
                dict,
                key,
                ObjectModel::Integer(turned(c, first)),
                ObjectModel::Integer(turned(c, first + second)),
            );
        },
        _ => {},
    }
}

/// Storing twice under one key is storing the second value.
pub proof fn lemma_dict_set_twice(
    dict: crate::object::DictModel,
    key: Seq<u8>,
    first: ObjectModel,
    second: ObjectModel,
)
    ensures
        dict_set(dict_set(dict, key, first), key, second) == dict_set(dict, key, second),
{
    let once = dict_set(dict, key, first);
    if crate::object::dict_has(dict, key) {
        let i = crate::object::dict_index(dict, key);
        assert(crate::object::dict_first(dict, key, i));
        assert(crate::object::dict_first(once, key, i)) by {
            assert forall|j: int| 0 <= j < i implies once[j].0 != key by {
                assert(once[j] == dict[j]);
            }
        }
        crate::object::lemma_dict_first_unique(once, key, i);
        assert(dict_set(once, key, second) =~= dict_set(dict, key, second));
    } else {
        let i = dict.len() as int;
        assert(crate::object::dict_first(once, key, i)) by {
            assert forall|j: int| 0 <= j < i implies once[j].0 != key by {
                assert(once[j] == dict[j]);
                if dict[j].0 == key {
                    crate::object::lemma_dict_has_some(dict, key, j);
                }
            }
        }
        crate::object::lemma_dict_first_unique(once, key, i);
        assert(dict_set(once, key, second) =~= dict_set(dict, key, second));
    }
}

/// Four quarter turns bring a page back to its rotation, where that
/// rotation lies from 0 up to 359.
pub proof fn law_full_turn_restores(page: ObjectModel)
    requires
        0 <= rotation_of(page) < 360,
    ensures
        rotation_of(rotate_page(rotate_page(rotate_page(rotate_page(page, 90), 90), 90), 90))
            == rotation_of(page),
        rotate_page(rotate_page(page, 90), 90) == rotate_page(page, 180),
{
    law_turns_add(page, 90, 90);
    law_turns_add(page, 180, 90);
    law_turns_add(page, 270, 90);
    let key = ascii("Rotate"@);
    let c = rotation_of(page);
    assert(turned(c, 360) == c) by {
        vstd::arithmetic::div_mod::lemma_mod_add_multiples_vanish(c, 360);
        vstd::arithmetic::div_mod::lemma_small_mod(c as nat, 360);
    }
    match page {
        ObjectModel::Dictionary(dict) => {
            lemma_dict_set_same(dict, key, ObjectModel::Integer(turned(c, 360)));
        },
        _ => {},
    }
}

/// Turning one object and then another is turning them in the other order.
pub proof fn lemma_rotate_at_commutes(
    table: TableModel,
    first: ObjectId,
    angle: int,
    second: ObjectId,
    other: int,
)
    ensures
        rotate_at(rotate_at(table, first, angle), second, other) == rotate_at(
            rotate_at(table, second, other),
            first,
            angle,
        ),
        first == second ==> rotate_at(rotate_at(table, first, angle), second, other) == rotate_at(
            table,
            first,
            angle + other,
        ),
{
    if first == second {
        if table.contains_key(first) {
            law_turns_add(table[first], angle, other);
            law_turns_add(table[first], other, angle);
            assert(rotate_at(rotate_at(table, first, angle), first, other) =~= rotate_at(
                table,
                first,
                angle + other,
            ));
            assert(rotate_at(rotate_at(table, first, other), first, angle) =~= rotate_at(
                table,
                first,
                other + angle,
            ));
        }
    } else {
        assert(rotate_at(rotate_at(table, first, angle), second, other) =~= rotate_at(
            rotate_at(table, second, other),
            first,
            angle,
        ));
    }
}

/// Turning one object before all of `pages` is turning it after them.
pub proof fn lemma_rotate_all_commutes(
    table: TableModel,
    pages: Seq<ObjectId>,
    angle: int,
    id: ObjectId,
    other: int,
)
    ensures
        rotate_all(rotate_at(table, id, other), pages, angle) == rotate_at(
            rotate_all(table, pages, angle),
            id,
            other,
        ),
    decreases pages.len(),
{
    if pages.len() > 0 {
        lemma_rotate_all_commutes(table, pages.drop_last(), angle, id, other);
        lemma_rotate_at_commutes(
            rotate_all(table, pages.drop_last(), angle),
            id,
            other,
            pages.last(),
            angle,
        );
    }
}

/// Turning all pages of a document by one angle and then by another is
/// turning them by the sum: two quarter turns are a half turn.
pub proof fn law_rotations_add(table: TableModel, pages: Seq<ObjectId>, first: int, second: int)
    ensures
        rotate_all(rotate_all(table, pages, first), pages, second) == rotate_all(
            table,
            pages,
            first + second,
        ),
    decreases pages.len(),
{
    if pages.len() > 0 {
        let rest = pages.drop_last();
        let last = pages.last();
        law_rotations_add(table, rest, first, second);
        lemma_rotate_all_commutes(rotate_all(table, rest, first), rest, second, last, first);
        lemma_rotate_at_commutes(
            rotate_all(rotate_all(table, rest, first), rest, second),
            last,
            first,
            last,
            second,
        );
    }
}

} // verus!
