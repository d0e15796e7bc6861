//! Pages located by the phrases they carry.
use vstd::prelude::*;
use std::collections::HashSet;
use crate::document::{Document, Page};
use crate::text::{chars_of, contains_any};
use crate::checkers::structure::{page_text, page_text_of, contains_one_of};

verus! {

/// Numbers of the pages, in order, whose text holds one of `keywords`.
pub open spec fn pages_with(pages: Seq<Page>, keywords: Seq<Seq<char>>) -> Seq<usize> {
    pages.filter_map(
        |p: Page|
            if contains_one_of(page_text_of(p), keywords) {
                Some(p.page_number)
            } else {
                None
            },
    )
}

/// Numbers of the pages, in order, whose lowercased text holds one of
/// `keywords`.
pub fn find_section_pages(doc: &Document, keywords: &Vec<Vec<char>>) -> (r: Vec<usize>)
    ensures
        r@ == pages_with(doc.pages@, keywords@.map_values(|k: Vec<char>| k@)),
{
    let ghost kv = keywords@.map_values(|k: Vec<char>| k@);
    let mut r: Vec<usize> = Vec::new();
    let mut i: usize = 0;
    while i < doc.pages.len()
        invariant
            i <= doc.pages@.len(),
            kv == keywords@.map_values(|k: Vec<char>| k@),
            r@ == pages_with(doc.pages@.take(i as int), kv),
        decreases doc.pages@.len() - i,
    {
        proof {
            assert(doc.pages@.take(i + 1).drop_last() =~= doc.pages@.take(i as int));
            assert(doc.pages@.take(i + 1).last() == doc.pages@[i as int]);
        }
        let text = page_text(&doc.pages[i]);
        let hit = contains_any(&text, keywords);
        proof {
            if hit {
                let k = choose|k: int|
                    0 <= k < keywords@.len() && crate::text::contains_seq(text@, #[trigger] keywords@[k]@);
                assert(kv[k] == keywords@[k]@);
            } else {
                assert forall|k: int| 0 <= k < kv.len() implies !crate::text::contains_seq(
                    text@,
                    #[trigger] kv[k],
                ) by {
                    assert(kv[k] == keywords@[k]@);
                }
            }
        }
        if hit {
            r.push(doc.pages[i].page_number);
        }
        i = i + 1;
    }
    assert(doc.pages@.take(doc.pages@.len() as int) =~= doc.pages@);
    r
}

/// Pages left out of margin measurements: the title page (page 1) and the
/// acceptance, copyright and dedication pages.
pub open spec fn excluded_pages(doc: Document) -> Seq<usize> {
    seq![1usize] + pages_with(doc.pages@, seq!["accepted by"@]) + pages_with(
        doc.pages@,
        seq!["©"@, "copyright"@],
    ) + pages_with(doc.pages@, seq!["dedication"@])
}

fn keywords1(a: &str) -> (r: Vec<Vec<char>>)
    ensures
        r@.map_values(|k: Vec<char>| k@) == seq![a@],
{
    let mut r: Vec<Vec<char>> = Vec::new();
    r.push(chars_of(a));
    assert(r@.map_values(|k: Vec<char>| k@) =~= seq![a@]);
    r
}

fn keywords2(a: &str, b: &str) -> (r: Vec<Vec<char>>)
    ensures
        r@.map_values(|k: Vec<char>| k@) == seq![a@, b@],
{
    let mut r: Vec<Vec<char>> = Vec::new();
    r.push(chars_of(a));
    r.push(chars_of(b));
    assert(r@.map_values(|k: Vec<char>| k@) =~= seq![a@, b@]);
    r
}

/// Adds each of `pages` to `set`.
fn insert_all(set: &mut HashSet<usize>, pages: &Vec<usize>)
    ensures
        final(set)@ == old(set)@.union(pages@.to_set()),
{
    broadcast use vstd::std_specs::hash::group_hash_axioms;

    let ghost s0 = set@;
    let mut i: usize = 0;
    while i < pages.len()
        invariant
            i <= pages@.len(),
            set@ =~= s0.union(pages@.take(i as int).to_set()),
        decreases pages@.len() - i,
    {
        set.insert(pages[i]);
        proof {
            assert(pages@.take(i + 1) =~= pages@.take(i as int).push(pages@[i as int]));
            pages@.take(i as int).lemma_push_to_set_commute(pages@[i as int]);
            assert(set@ =~= s0.union(pages@.take(i + 1).to_set()));
        }
        i = i + 1;
    }
    assert(pages@.take(pages@.len() as int) =~= pages@);
}

/// The pages left out of margin measurements (see `excluded_pages`), as a
/// set of page numbers.
pub fn find_excluded_pages(doc: &Document) -> (r: HashSet<usize>)
    ensures
        r@ == excluded_pages(*doc).to_set(),
{
    broadcast use vstd::std_specs::hash::group_hash_axioms;

    let mut r: HashSet<usize> = HashSet::new();
    r.insert(1);
    let acc = find_section_pages(doc, &keywords1("accepted by"));
    let copy = keywords2("©", "copyright");
    let copyright = find_section_pages(doc, &copy);
    let dedication = find_section_pages(doc, &keywords1("dedication"));
    insert_all(&mut r, &acc);
    insert_all(&mut r, &copyright);
    insert_all(&mut r, &dedication);
    proof {
        broadcast use vstd::seq_lib::lemma_seq_concat_contains_all_elements;

        let one = seq![1usize];
        assert(one.contains(1usize)) by {
            assert(one[0] == 1usize);
        }
        assert forall|x: usize| #[trigger] one.contains(x) implies x == 1usize by {}
        assert(r@ =~= excluded_pages(*doc).to_set());
    }
    r
}

} // verus!
