//! What a caller can rely on in the results of the operations.

use vstd::prelude::*;

use crate::bank::{all_objects, hirc_index, main_objects, resolved, Soundbank};
use crate::body::{direct_parent, override_bus, reads_as, references};
use crate::compare::{compare_banks, count_different, Comparison};
use crate::copy_laws::{lemma_copy_has_all_audio, lemma_plan_has_all_audio, one_plays};
use crate::edit_laws::{
    is_place_of, lemma_body_is_replaced, lemma_id_change_refused, lemma_id_is_changed,
    only_body_differs,
};
use crate::edits::object_place;
use crate::editor::{
    cmd_add_child, cmd_find, collect_wem_ids, copy_event, find_line_of, plan_copy, CopyDone,
    CopyPlan,
};
use crate::error::{EditError, StorageError, StorageFault};
use crate::graph::{dependencies, texts_view, tree_lines};
use crate::ids::{dictionary_view, id_hash, id_meant, numeric_id, text_view, FNVDictionary, IdView};
use crate::index::HircIndex;
use crate::kind::BodyKind;
use crate::line_laws::{left_in, lemma_all_found_are_shown, lemma_find_line_columns, right_in};
use crate::pages::{
    count_line, escaped, make_rows, match_word, missing_text, page_status, search_filters,
    search_kinds, CountLine, ObjectRow,
};
use crate::patch_laws::lemma_difference;
use crate::row_laws::{is_row_of, lemma_imported_rows_are_named};
use crate::rows::section_rows_view;
use crate::session::{
    inserted_missing, lemma_export_restores, modified_missing, Mutation, SoundbankSession, Splice,
};
use crate::storage::{
    check_schema, created_name, export_fits, exported, import_bnk, list_objects,
    list_objects_capped, Import, ObjectQuery, ObjectSummary,
};
use crate::text::{capital_hex_id_text, decimal_text, hex_text, lemma_hex_reads_back, upper_digit};
use crate::tree_laws::outline;
use crate::wems::has_no_audio;

verus! {

// ---------------------------------------------------------------------------
// Copying
// ---------------------------------------------------------------------------
/// The audio files of some objects are all those that one of the objects plays, in ascending order.
pub proof fn lemma_collected_audio(index: &HircIndex, ids: &Vec<u32>, r: Vec<u32>, file: u32)
    requires
        call_ensures(collect_wem_ids, (index, ids), r),
    ensures
        r@.contains(file) == one_plays(index@, ids@, file),
        forall|i: int, j: int| 0 <= i < j < r@.len() ==> r@[i] < r@[j],
{
    crate::copy_laws::lemma_collected_sources(index@, ids@, file);
}

/// The plan of a copy names every audio file that something plays on which the event depends.
pub proof fn lemma_planned_audio(
    source: &Soundbank,
    destination: &Soundbank,
    event: &str,
    r: Result<CopyPlan, EditError>,
    file: u32,
)
    requires
        call_ensures(plan_copy, (source, destination, event), r),
        r is Ok,
    ensures
        r->Ok_0.wem_ids@.contains(file) == one_plays(
            main_objects(source@),
            dependencies(main_objects(source@), r->Ok_0.event_id),
            file,
        ),
        resolved(main_objects(source@), event@) == Some(r->Ok_0.event_id),
{
    lemma_plan_has_all_audio(
        main_objects(source@),
        main_objects(destination@),
        event@,
        r->Ok_0@,
        file,
    );
}

/// A copy takes along every audio file that something plays on which the event depends.
pub proof fn lemma_copied_audio(
    source: &Soundbank,
    destination: Soundbank,
    event: &str,
    register_with: Option<&str>,
    r: Result<CopyDone, EditError>,
    file: u32,
)
    requires
        call_ensures(copy_event, (source, destination, event, register_with), r),
        r is Ok,
    ensures
        r->Ok_0.wem_ids@.contains(file) == one_plays(
            main_objects(source@),
            dependencies(
                main_objects(source@),
                resolved(main_objects(source@), event@)->Some_0,
            ),
            file,
        ),
{
    lemma_copy_has_all_audio(
        main_objects(source@),
        destination@,
        event@,
        crate::storage::filter_view(register_with),
        r->Ok_0@,
        file,
    );
}

// ---------------------------------------------------------------------------
// Editing
// ---------------------------------------------------------------------------
/// When the id of an object is changed, whether to a number or to a name, the object has the new id
/// and every mention of its old hash, in any object, mentions the new one instead.
pub proof fn lemma_edited_id(
    soundbank: &mut Soundbank,
    target: &str,
    new_id: &str,
    renumber: bool,
    r: Result<String, EditError>,
)
    requires
        call_ensures(crate::viewer::do_edit_id, (soundbank, target, new_id, renumber), r),
        r is Ok,
    ensures
        ({
            let was = all_objects(old(soundbank)@);
            let is = all_objects(final(soundbank)@);
            let from = resolved(was, target@)->Some_0;
            let to = id_hash(id_meant(new_id@));
            let i = object_place(old(soundbank)@, from)->Ok_0;
            &&& resolved(was, target@) is Some
            &&& is_place_of(old(soundbank)@, i, from)
            &&& is.len() == was.len()
            &&& is[i].id == id_meant(new_id@)
            &&& forall|k: int|
                0 <= k < was.len() && from != 0 && to != 0 ==> {
                    let a = (#[trigger] is[k]).body;
                    let b = was[k].body;
                    &&& references(a) == references(b).map_values(
                        |id: u32|
                            if id == from {
                                to
                            } else {
                                id
                            },
                    )
                    &&& direct_parent(a) == (if direct_parent(b) == Some(from) {
                        Some(to)
                    } else {
                        direct_parent(b)
                    })
                    &&& override_bus(a) == (if override_bus(b) == Some(from) {
                        Some(to)
                    } else {
                        override_bus(b)
                    })
                }
        }),
{
    let bank = old(soundbank)@;
    let after = final(soundbank)@;
    lemma_id_is_changed(bank, target@, new_id@, renumber, after);
    let was = all_objects(bank);
    let is = all_objects(after);
    let from = resolved(was, target@)->Some_0;
    let to = id_hash(id_meant(new_id@));
    assert forall|k: int| 0 <= k < was.len() && from != 0 && to != 0 implies {
        let a = (#[trigger] is[k]).body;
        let b = was[k].body;
        &&& references(a) == references(b).map_values(
            |id: u32|
                if id == from {
                    to
                } else {
                    id
                },
        )
        &&& direct_parent(a) == (if direct_parent(b) == Some(from) {
            Some(to)
        } else {
            direct_parent(b)
        })
        &&& override_bus(a) == (if override_bus(b) == Some(from) {
            Some(to)
        } else {
            override_bus(b)
        })
    } by {
        let a = is[k].body;
        let b = was[k].body;
        assert(references(a) =~= references(b).map_values(
            |id: u32|
                if id == from {
                    to
                } else {
                    id
                },
        ));
    }
}

/// A change of an id that is refused leaves the bank as it was. It is refused for want of a new id
/// or of the object, and where the hash would change: without leave to renumber, and where another
/// object has the hash.
pub proof fn lemma_refused_id(
    soundbank: &mut Soundbank,
    target: &str,
    new_id: &str,
    renumber: bool,
    r: Result<String, EditError>,
)
    requires
        call_ensures(crate::viewer::do_edit_id, (soundbank, target, new_id, renumber), r),
        r is Err,
    ensures
        final(soundbank)@ == old(soundbank)@,
        ({
            let all = all_objects(old(soundbank)@);
            let from = resolved(all, target@);
            let to = id_hash(id_meant(new_id@));
            ||| new_id@.len() == 0
            ||| from is None
            ||| !renumber && from != Some(to)
            ||| renumber && from != Some(to) && crate::bank::has_hash(all, to)
            ||| object_place(old(soundbank)@, from->Some_0) is Err
        }),
{
    lemma_id_change_refused(old(soundbank)@, target@, new_id@, renumber);
}

/// On the command line and in the viewer a child is added in the same way, wherever the names mean
/// the same objects.
pub proof fn lemma_child_added_either_way(
    bank: &mut Soundbank,
    other: &mut Soundbank,
    parent: &str,
    child: &str,
    r: Result<(u32, u32), EditError>,
    s: Result<(), EditError>,
)
    requires
        old(bank)@ == old(other)@,
        resolved(main_objects(old(bank)@), parent@) == resolved(
            all_objects(old(bank)@),
            parent@,
        ),
        resolved(main_objects(old(bank)@), child@) == resolved(all_objects(old(bank)@), child@),
        call_ensures(cmd_add_child, (bank, parent, child), r),
        call_ensures(crate::viewer::do_add_child, (other, parent, child), s),
    ensures
        final(bank)@ == final(other)@,
        (r is Ok) == (s is Ok),
        r matches Ok((p, c)) ==> resolved(main_objects(old(bank)@), parent@) == Some(p) && resolved(
            main_objects(old(bank)@),
            child@,
        ) == Some(c),
{
}

/// A body is replaced by what the text says, of the object that is meant and of no other.
pub proof fn lemma_edited_body(
    soundbank: &mut Soundbank,
    target: &str,
    text: &str,
    r: Result<(), EditError>,
)
    requires
        call_ensures(crate::viewer::do_edit_body, (soundbank, target, text), r),
    ensures
        r is Err ==> final(soundbank)@ == old(soundbank)@,
        r is Ok ==> {
            let id = resolved(all_objects(old(soundbank)@), target@)->Some_0;
            let i = object_place(old(soundbank)@, id)->Ok_0;
            &&& is_place_of(old(soundbank)@, i, id)
            &&& only_body_differs(old(soundbank)@, final(soundbank)@, i)
            &&& reads_as(text@, main_objects(final(soundbank)@)[i].body)
        },
{
    lemma_body_is_replaced(old(soundbank)@, target@, text@);
}

// ---------------------------------------------------------------------------
// Importing
// ---------------------------------------------------------------------------
/// An import stores every object, of whatever kind, and by the name that the dictionary has for its
/// hash, if it has one.
pub proof fn lemma_imported_objects(
    soundbank: Soundbank,
    dictionary: &FNVDictionary,
    r: Result<Import, StorageError>,
    k: int,
)
    requires
        call_ensures(import_bnk, (soundbank, dictionary), r),
        r is Ok,
        0 <= k < main_objects(soundbank@).len(),
    ensures
        ({
            let names = dictionary_view(dictionary@);
            let rows = section_rows_view(r->Ok_0.sections@);
            let object = main_objects(soundbank@)[k];
            let hash = id_hash(object.id);
            exists|s: int|
                {
                    &&& 0 <= s < rows.len()
                    &&& (#[trigger] rows[s]).objects.len() == main_objects(soundbank@).len()
                    &&& is_row_of(
                        rows[s].objects[k],
                        if names.contains_key(hash) {
                            crate::bank::ObjectData {
                                id: IdView::Name(names[hash]),
                                body: object.body,
                            }
                        } else {
                            object
                        },
                        k,
                        names,
                    )
                }
        }),
{
    let names = dictionary_view(dictionary@);
    lemma_imported_rows_are_named(soundbank@, names, k);
    let stripped = crate::wems::without_audio(crate::storage::upgraded(soundbank@, names));
    let rows = section_rows_view(r->Ok_0.sections@);
    assert(rows[hirc_index(stripped)].objects.len() == main_objects(soundbank@).len());
}

// ---------------------------------------------------------------------------
// Showing
// ---------------------------------------------------------------------------
/// A tree is shown as an outline, each level farther in than the one above, however deep.
pub proof fn lemma_shown_tree(index: &HircIndex, root: u32, r: Vec<String>)
    requires
        call_ensures(tree_lines, (index, root), r),
    ensures
        texts_view(r@) == outline(index@, seq![root], 0, Set::empty()).lines,
{
    crate::tree_laws::lemma_tree_is_outline(index@, root);
}

/// What is found is shown line by line; each line shows the direct parent and no other object.
pub proof fn lemma_shown_finds(rows: &Vec<ObjectSummary>, r: Vec<String>, k: int)
    requires
        call_ensures(cmd_find, (rows,), r),
        0 <= k < rows@.len(),
        rows@[k].body_kind@.len() <= 32,
    ensures
        r@.len() == rows@.len(),
        right_in(r@[k]@, 0, 12, decimal_text(rows@[k].id_hash as nat)),
        left_in(r@[k]@, 14, 32, rows@[k].body_kind@),
        left_in(
            r@[k]@,
            55,
            12,
            match rows@[k].direct_parent {
                Some(parent) => decimal_text(parent as nat),
                None => "—"@,
            },
        ),
        r@[k]@.skip(69) == match rows@[k].label {
            Some(label) => label@,
            None => "—"@,
        },
{
    lemma_all_found_are_shown(rows@);
    lemma_find_line_columns(rows@[k]);
    assert(texts_view(r@).len() == r@.len());
    assert(texts_view(r@)[k] == r@[k]@);
}

/// The line of one object is its line among several.
pub proof fn lemma_one_find(
    row: &ObjectSummary,
    one: String,
    rows: &Vec<ObjectSummary>,
    r: Vec<String>,
    k: int,
)
    requires
        call_ensures(find_line_of, (row,), one),
        call_ensures(cmd_find, (rows,), r),
        0 <= k < rows@.len(),
        rows@[k] == *row,
    ensures
        r@[k]@ == one@,
{
    lemma_all_found_are_shown(rows@);
    assert(texts_view(r@)[k] == r@[k]@);
}

// ---------------------------------------------------------------------------
// Comparing
// ---------------------------------------------------------------------------
/// A comparison counts the objects of both banks, and lists on each side the hashes that the other
/// does not have, each once, in ascending order.
pub proof fn lemma_compared(a: &Soundbank, b: &Soundbank, r: Comparison, hash: u32)
    requires
        call_ensures(compare_banks, (a, b), r),
    ensures
        r.count_a == main_objects(a@).len(),
        r.count_b == main_objects(b@).len(),
        r.only_a@.contains(hash) == (crate::bank::has_hash(main_objects(a@), hash)
            && !crate::bank::has_hash(main_objects(b@), hash)),
        r.only_b@.contains(hash) == (crate::bank::has_hash(main_objects(b@), hash)
            && !crate::bank::has_hash(main_objects(a@), hash)),
        forall|i: int, j: int| 0 <= i < j < r.only_a@.len() ==> r.only_a@[i] < r.only_a@[j],
        forall|i: int, j: int| 0 <= i < j < r.only_b@.len() ==> r.only_b@[i] < r.only_b@[j],
{
    let x = crate::session::hashes(main_objects(a@));
    let y = crate::session::hashes(main_objects(b@));
    lemma_difference(x, y, hash);
    lemma_difference(y, x, hash);
    lemma_hash_is_listed(main_objects(a@), hash);
    lemma_hash_is_listed(main_objects(b@), hash);
}

proof fn lemma_hash_is_listed(objects: Seq<crate::bank::ObjectData>, hash: u32)
    ensures
        crate::session::hashes(objects).contains(hash) == crate::bank::has_hash(objects, hash),
{
    let all = crate::session::hashes(objects);
    if all.contains(hash) {
        let i = choose|i: int| 0 <= i < all.len() && all[i] == hash;
        assert(id_hash(objects[i].id) == hash);
    }
    if crate::bank::has_hash(objects, hash) {
        let i = choose|i: int|
            0 <= i < objects.len() && id_hash((#[trigger] objects[i]).id) == hash;
        assert(all[i] == hash);
    }
}

/// Lists differ in as many ids as stand in one of them only; it does not matter which comes first.
pub proof fn lemma_counted_either_way(a: &Vec<u32>, b: &Vec<u32>, r: u128, s: u128)
    requires
        call_ensures(count_different, (a, b), r),
        call_ensures(count_different, (b, a), s),
    ensures
        r == s,
        (forall|id: u32| #[trigger] a@.contains(id) == b@.contains(id)) ==> r == 0,
        r == 0 ==> forall|id: u32| #[trigger] a@.contains(id) == b@.contains(id),
{
    let x = crate::compare::difference(a@, b@);
    let y = crate::compare::difference(b@, a@);
    if forall|id: u32| #[trigger] a@.contains(id) == b@.contains(id) {
        if x.len() > 0 {
            lemma_difference(a@, b@, x[0]);
            assert(x.contains(x[0]));
        }
        if y.len() > 0 {
            lemma_difference(b@, a@, y[0]);
            assert(y.contains(y[0]));
        }
    }
    if r == 0 {
        assert forall|id: u32| #[trigger] a@.contains(id) == b@.contains(id) by {
            lemma_difference(a@, b@, id);
            lemma_difference(b@, a@, id);
        }
    }
}

// ---------------------------------------------------------------------------
// Sessions
// ---------------------------------------------------------------------------
/// Where a subgraph is added, all its objects are written as new and the mixer as changed; nothing
/// else is.
pub proof fn lemma_written_subgraph(
    session: &SoundbankSession,
    mixer: u32,
    trees: Vec<crate::json::Json>,
    more: Vec<u32>,
    r: Result<Mutation, StorageError>,
)
    requires
        call_ensures(SoundbankSession::add_hirc_subgraph, (session, mixer, trees, more), r),
        r is Ok,
    ensures
        r->Ok_0.edits.inserted@.len() == trees@.len(),
        r->Ok_0.edits.modified@ == seq![mixer],
        main_objects(r->Ok_0.soundbank@).len() == main_objects(session@.bank).len() + trees@.len(),
        forall|k: int|
            0 <= k < trees@.len() ==> #[trigger] r->Ok_0.edits.inserted@[k] == id_hash(
                main_objects(r->Ok_0.soundbank@)[main_objects(session@.bank).len() + k].id,
            ),
{
    let added = crate::session::subgraph_objects(crate::session::trees_view(trees@))->Ok_0;
    crate::subgraph_laws::lemma_subgraph_is_read(crate::session::trees_view(trees@));
    crate::subgraph_laws::lemma_subgraph_ids_stay(session@.bank, added, mixer, more@);
}

/// An export that is begun and ended leaves the session as it was.
pub proof fn lemma_export_passes(
    begun: &mut SoundbankSession,
    r: Result<Splice, StorageError>,
    ended: &mut SoundbankSession,
    done: (),
)
    requires
        has_no_audio(old(begun)@.bank),
        old(begun)@.bank.len() + 2 <= usize::MAX,
        export_fits(old(begun)@.bank, old(begun)@.wems),
        call_ensures(SoundbankSession::begin_export, (begun,), r),
        r is Ok,
        old(ended)@ == final(begun)@,
        call_ensures(SoundbankSession::end_export, (ended, r->Ok_0), done),
    ensures
        final(ended)@ == old(begun)@,
{
    let before = old(begun)@;
    lemma_export_restores(before.bank, before.wems, exported(before.bank, before.wems)->Ok_0);
}

/// What is committed is what the session holds from there on; its database and its audio files stay
/// the same.
pub proof fn lemma_committed(session: &mut SoundbankSession, mutation: Mutation, done: ())
    requires
        call_ensures(SoundbankSession::commit, (session, mutation), done),
    ensures
        final(session)@.bank == mutation.soundbank@,
        final(session)@.wems == old(session)@.wems,
        final(session)@.db_path == old(session)@.db_path,
{
}

/// The refusal of an object that is not there names its hash.
pub proof fn lemma_missing_is_named(hash: u32)
    ensures
        inserted_missing(hash) matches StorageFault::BadHash(text) && text.take(12)
            == "inserted id "@ && numeric_id(text.subrange(12, 22)) == Some(hash) && text.skip(22)
            == " not present in cached HIRC"@,
        modified_missing(hash) matches StorageFault::BadHash(text) && text.take(12)
            == "modified id "@ && numeric_id(text.subrange(12, 22)) == Some(hash) && text.skip(22)
            == " not found in cached HIRC"@,
{
    reveal_strlit("inserted id ");
    reveal_strlit("modified id ");
    reveal_strlit("0x");
    let name = capital_hex_id_text(hash);
    let digits = hex_text(hash as nat, 8).map_values(|c: char| upper_digit(c));
    lemma_hex_reads_back(hash);
    lemma_hex_len(hash as nat, 8);
    assert(name.skip(2) =~= digits);
    assert(name[0] == '0' && name[1] == 'x');
    assert(name.len() == 10);
    let a = inserted_missing(hash)->BadHash_0;
    let b = modified_missing(hash)->BadHash_0;
    assert(a.take(12) =~= "inserted id "@);
    assert(b.take(12) =~= "modified id "@);
    assert(a.subrange(12, 22) =~= name);
    assert(b.subrange(12, 22) =~= name);
    assert(a.skip(22) =~= " not present in cached HIRC"@);
    assert(b.skip(22) =~= " not found in cached HIRC"@);
}

proof fn lemma_hex_len(n: nat, width: nat)
    ensures
        hex_text(n, width).len() == width,
    decreases width,
{
    if width > 0 {
        lemma_hex_len(n / 16, (width - 1) as nat);
    }
}

// ---------------------------------------------------------------------------
// Pages and lists
// ---------------------------------------------------------------------------
/// A page is missing if its object is, whatever was asked of it; a refused change is a bad request;
/// all else is well.
pub proof fn lemma_status(found: bool, refused: bool, r: u16)
    requires
        call_ensures(page_status, (found, refused), r),
    ensures
        (r == 404) == !found,
        (r == 400) == (found && refused),
        (r == 200) == (found && !refused),
{
}

/// What is counted is all, unless there are more matches than were returned.
pub proof fn lemma_count(returned: u64, total: u64, r: CountLine)
    requires
        call_ensures(count_line, (returned, total), r),
    ensures
        (r is NoMatches) == (total == 0),
        (r is Truncated) == (total > 0 && returned < total),
        r matches CountLine::Truncated { returned: shown, total: all } ==> shown == returned && all
            == total,
        r matches CountLine::All { total: all } ==> all == total,
{
}

/// One match is a match, and any other number of them is matches.
pub proof fn lemma_match_word(total: u64, r: &'static str)
    requires
        call_ensures(match_word, (total,), r),
    ensures
        r@.take(5) == "match"@,
        (r@.len() == 5) == (total == 1),
        total != 1 ==> r@.skip(5) == "es"@,
{
    reveal_strlit("match");
    reveal_strlit("matches");
    reveal_strlit("es");
    assert(r@.take(5) =~= "match"@);
    assert(total != 1 ==> r@.skip(5) =~= "es"@);
}

/// An object that is not there is called as it was asked for, or by its number.
pub proof fn lemma_missing(id: u32, target: &str, r: String)
    requires
        call_ensures(missing_text, (id, target), r),
    ensures
        target@.len() > 0 ==> r@ == target@,
        target@.len() == 0 ==> r@ == decimal_text(id as nat),
{
}

/// A search for a text matches where the text stands within the label; a kind is matched whole. An
/// empty field does not filter.
pub proof fn lemma_filters(q: &str, kind: &str, r: (Option<String>, Option<String>))
    requires
        call_ensures(search_filters, (q, kind), r),
    ensures
        (r.0 is None) == (kind@.len() == 0),
        (r.1 is None) == (q@.len() == 0),
        r.0 matches Some(pattern) ==> pattern@ == escaped(kind@),
        r.1 matches Some(pattern) ==> {
            let n = pattern@.len();
            &&& n == escaped(q@).len() + 2
            &&& pattern@[0] == '%'
            &&& pattern@[n - 1] == '%'
            &&& pattern@.subrange(1, n - 1) == escaped(q@)
        },
{
    reveal_strlit("%");
    if let Some(pattern) = r.1 {
        let n = pattern@.len();
        assert(text_view(r.1) == Some(pattern@));
        assert(pattern@ == "%"@ + escaped(q@) + "%"@);
        assert(pattern@.subrange(1, n - 1) =~= escaped(q@));
    }
    if let Some(pattern) = r.0 {
        assert(text_view(r.0) == Some(pattern@));
    }
}

/// Every kind can be searched for but two of the modulators, and each is offered once.
pub proof fn lemma_kinds_on_offer(r: Vec<BodyKind>, kind: BodyKind)
    requires
        call_ensures(search_kinds, (), r),
    ensures
        r@.contains(kind) == (kind != BodyKind::LFOModulator && kind
            != BodyKind::EnvelopeModulator),
        r@.no_duplicates(),
{
    let s = r@;
    assert(s.len() == 20);
    assert(s[0] == BodyKind::Event && s[1] == BodyKind::Action && s[2] == BodyKind::Sound);
    assert(s[3] == BodyKind::RandomSequenceContainer && s[4] == BodyKind::SwitchContainer);
    assert(s[5] == BodyKind::ActorMixer && s[6] == BodyKind::LayerContainer);
    assert(s[7] == BodyKind::Bus && s[8] == BodyKind::AuxiliaryBus);
    assert(s[9] == BodyKind::MusicSegment && s[10] == BodyKind::MusicTrack);
    assert(s[11] == BodyKind::MusicSwitchContainer);
    assert(s[12] == BodyKind::MusicRandomSequenceContainer);
    assert(s[13] == BodyKind::DialogueEvent && s[14] == BodyKind::Attenuation);
    assert(s[15] == BodyKind::EffectShareSet && s[16] == BodyKind::EffectCustom);
    assert(s[17] == BodyKind::AudioDevice && s[18] == BodyKind::State);
    assert(s[19] == BodyKind::TimeModulator);
}

/// A list without a limit is one with the highest limit there is.
pub proof fn lemma_uncapped(
    kind: Option<&str>,
    label: Option<&str>,
    limit: i64,
    all: ObjectQuery,
    some: ObjectQuery,
)
    requires
        call_ensures(list_objects, (kind, label), all),
        call_ensures(list_objects_capped, (kind, label, limit), some),
    ensures
        all.kind_pattern@ == some.kind_pattern@,
        all.label_pattern@ == some.label_pattern@,
        some.limit == limit,
        all.limit >= limit,
        kind matches Some(kind) ==> all.kind_pattern@ == kind@,
        label matches Some(label) ==> all.label_pattern@ == label@,
{
}

/// The rows of a list are in the order of its objects.
pub proof fn lemma_rows_in_order(objects: &Vec<ObjectSummary>, r: Vec<ObjectRow>, k: int)
    requires
        call_ensures(make_rows, (objects,), r),
        0 <= k < objects@.len(),
    ensures
        r@.len() == objects@.len(),
        r@[k]@ == crate::pages::row_of(objects@[k]),
{
    let rows = crate::pages::object_rows_view(r@);
    assert(rows.len() == r@.len());
    assert(rows[k] == r@[k]@);
}

// ---------------------------------------------------------------------------
// Files
// ---------------------------------------------------------------------------
/// A database is taken for one of banks by its mark and by its version, and the mark comes first.
pub proof fn lemma_schema(application_id: i32, version: i32, r: Result<(), StorageError>)
    requires
        call_ensures(check_schema, (application_id, version), r),
    ensures
        (r is Ok) == (application_id == crate::storage::APPLICATION_ID && version
            == crate::storage::SCHEMA_VERSION),
        r matches Err(e) ==> match e@ {
            StorageFault::BadApplicationId { found } => found == application_id && found
                != crate::storage::APPLICATION_ID,
            StorageFault::VersionMismatch { found, expected } => {
                &&& application_id == crate::storage::APPLICATION_ID
                &&& found == version
                &&& expected == crate::storage::SCHEMA_VERSION
            },
            _ => false,
        },
{
}

/// A created bank is named like the database, with an ending that tells what it is.
pub proof fn lemma_created(stem: &str, r: String)
    requires
        call_ensures(created_name, (stem,), r),
    ensures
        r@.len() == stem@.len() + ".created.bnk"@.len(),
        r@.take(stem@.len() as int) == stem@,
        r@.skip(stem@.len() as int) == ".created.bnk"@,
{
    assert(r@.take(stem@.len() as int) =~= stem@);
    assert(r@.skip(stem@.len() as int) =~= ".created.bnk"@);
}

} // verus!
