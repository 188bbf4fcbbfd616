//! Sending a request: which sockets are tried, and what their answers lead to.
use crate::json::{
    encode_json, json_parse, json_read, json_text, json_value, lookup, max_depth, object1,
    parse_json, Json, JsonView,
};
use crate::niri_ipc::IpcError;
use crate::order::{
    is_sort_of, law_sorting_keeps_items, lemma_filter_map_is_filter, sort_by_name, views, Named,
};
use crate::text::{chars_of, ends_with, is_blank, stands_at, starts_with, text_less, trim, Trim};
use vstd::prelude::*;

verus! {

/// An entry of the runtime directory: its name, unless that is not Unicode, and its path.
#[derive(Debug)]
pub struct DirEntry {
    pub name: Option<String>,
    pub path: Vec<u8>,
}

/// A socket of the compositor.
#[derive(Debug)]
pub struct FoundSocket {
    pub name: String,
    pub path: Vec<u8>,
}

/// The mathematical value of a [`FoundSocket`].
pub struct FoundSocketView {
    pub name: Seq<char>,
    pub path: Seq<u8>,
}

impl View for FoundSocket {
    type V = FoundSocketView;

    open spec fn view(&self) -> FoundSocketView {
        FoundSocketView { name: self.name@, path: self.path@ }
    }
}

impl Named for FoundSocket {
    open spec fn key(v: FoundSocketView) -> Seq<char> {
        v.name
    }

    fn name(&self) -> (r: &str) {
        self.name.as_str()
    }
}

/// Whether an entry of the runtime directory is named as a socket of the compositor.
pub open spec fn is_socket_name(name: Seq<char>) -> bool {
    starts_with(name, "niri."@) && ends_with(name, ".sock"@)
}

/// The socket that an entry is, if it is one.
pub open spec fn socket_of(e: DirEntry) -> Option<FoundSocketView> {
    match e.name {
        Some(name) => if is_socket_name(name@) {
            Some(FoundSocketView { name: name@, path: e.path@ })
        } else {
            None
        },
        None => None,
    }
}

/// The paths of a list.
pub open spec fn path_views(paths: Seq<Vec<u8>>) -> Seq<Seq<u8>> {
    paths.map_values(|p: Vec<u8>| p@)
}

/// The sockets of a list of entries, in its order.
pub open spec fn sockets_of(entries: Seq<DirEntry>) -> Seq<FoundSocketView> {
    entries.filter_map(|e: DirEntry| socket_of(e))
}

/// Whether `sorted` holds the sockets of a list of entries by name.
pub open spec fn in_socket_order(sorted: Seq<FoundSocketView>, entries: Seq<DirEntry>) -> bool {
    is_sort_of(sorted, sockets_of(entries), |s: FoundSocketView| s.name)
}

/// The paths of sockets.
pub open spec fn socket_paths(sockets: Seq<FoundSocketView>) -> Seq<Seq<u8>> {
    sockets.map_values(|s: FoundSocketView| s.path)
}

fn socket_name(name: &str) -> (r: bool)
    ensures
        r == is_socket_name(name@),
{
    let n = chars_of(name);
    let prefix = chars_of("niri.");
    let suffix = chars_of(".sock");
    assert(n@.subrange(0, n@.len() as int) =~= n@);
    if !stands_at(&n, 0, n.len(), &prefix) || n.len() < suffix.len() {
        return false;
    }
    let at: usize = n.len() - suffix.len();
    let ghost end = n@.subrange(at as int, n@.len() as int);
    let r = stands_at(&n, at, n.len(), &suffix);
    assert(end.subrange(0, suffix@.len() as int) =~= end);
    r
}

/// The sockets to try: the one that the environment names, then those in the runtime directory,
/// by name.
pub fn candidate_sockets(niri_socket: Option<Vec<u8>>, entries: Vec<DirEntry>) -> (r: Vec<Vec<u8>>)
    ensures
        exists|sorted: Seq<FoundSocketView>| #[trigger]
            in_socket_order(sorted, entries@) && path_views(r@) == (match niri_socket {
                Some(p) => seq![p@],
                None => Seq::empty(),
            }) + socket_paths(sorted),
{
    let mut found: Vec<FoundSocket> = Vec::new();
    let ghost all = entries@;
    let ghost read = |e: DirEntry| socket_of(e);
    assert(views(found@) =~= all.take(0).filter_map(read));
    for e in it: entries
        invariant
            it.seq() == entries@,
            all == entries@,
            read == |e: DirEntry| socket_of(e),
            views(found@) == all.take(it.index() as int).filter_map(read),
    {
        proof {
            all.lemma_filter_map_take_succ(read, it.index() as int);
        }
        let ghost entry = e;
        let ghost before = found@;
        let DirEntry { name, path } = e;
        if let Some(name) = name {
            if socket_name(name.as_str()) {
                found.push(FoundSocket { name, path });
                assert(views(found@) =~= views(before) + seq![socket_of(entry)->0]);
            } else {
                assert(views(before) =~= views(before) + Seq::empty());
            }
        } else {
            assert(views(before) =~= views(before) + Seq::empty());
        }
    }
    assert(all.take(all.len() as int) =~= all);
    let sorted = sort_by_name(found);
    assert(in_socket_order(views(sorted@), entries@)) by {
        let k1 = |v: FoundSocketView| <FoundSocket as Named>::key(v);
        let k2 = |s: FoundSocketView| s.name;
        assert(k1 =~= k2);
    }
    let mut r: Vec<Vec<u8>> = Vec::new();
    if let Some(p) = niri_socket {
        r.push(p);
    }
    let ghost head = path_views(r@);
    let ghost listed = views(sorted@);
    assert(head =~= (match niri_socket {
        Some(p) => seq![p@],
        None => Seq::empty(),
    }));
    assert(head =~= head + socket_paths(listed.take(0)));
    for s in it: sorted
        invariant
            it.seq() == sorted@,
            listed == views(sorted@),
            path_views(r@) == head + socket_paths(listed.take(it.index() as int)),
    {
        let ghost before = r@;
        r.push(s.path);
        assert(path_views(r@) =~= path_views(before).push(s.path@));
        assert(listed.take(it.index() + 1) =~= listed.take(it.index() as int).push(s@));
        assert(path_views(r@) =~= head + socket_paths(listed.take(it.index() + 1)));
    }
    assert(listed.take(listed.len() as int) =~= listed);
    r
}

/// The line that a request is sent as. Up to its line break it is read back as it was sent.
pub fn request_line(request: &Json) -> (r: String)
    requires
        request@.is_shallow(max_depth()),
    ensures
        r@ == json_text(json_value(request@)).push('\n'),
        forall|i: int| 0 <= i < r@.len() - 1 ==> r@[i] != '\n',
        json_parse(r@.drop_last()) == Some(json_value(request@)),
{
    let mut line = encode_json(request);
    let ghost text = line@;
    proof {
        reveal_strlit("\n");
    }
    line.append("\n");
    assert(line@ =~= text.push('\n'));
    assert(line@.drop_last() =~= text);
    assert forall|i: int| 0 <= i < line@.len() - 1 implies line@[i] != '\n' by {
        assert(text.contains(text[i]));
    }
    line
}

/// Reads the line that came back: a blank line is no reply, and anything else is a document.
pub fn decode_reply(line: &str) -> (r: Result<Json, IpcError>)
    ensures
        if trim(line@, Trim::WhiteSpace).len() == 0 {
            r == Err::<Json, _>(IpcError::EmptyReply)
        } else {
            match json_read(line@) {
                Ok(document) => r is Ok && r->Ok_0@ == document,
                Err(said) => r matches Err(IpcError::BadReply(text)) && text@ == said,
            }
        },
{
    if is_blank(line) {
        return Err(IpcError::EmptyReply);
    }
    match parse_json(line) {
        Ok(document) => Ok(document),
        Err(said) => Err(IpcError::BadReply(said)),
    }
}

/// Whether `r` is what a reply says: that the request was refused, and why; or the payload of `Ok`,
/// null if there is none.
pub open spec fn is_payload(reply: JsonView, r: Result<Json, IpcError>) -> bool {
    match reply.get("Err"@) {
        Some(err) => r matches Err(IpcError::Refused(why)) && why@ == (match err.as_text() {
            Some(text) => text,
            None => "unknown error"@,
        }),
        None => r is Ok && r->Ok_0@ == (match reply.get("Ok"@) {
            Some(ok) => ok,
            None => JsonView::Null,
        }),
    }
}

/// The reply `{"Ok": ..}` says its payload, and the reply `{"Err": ".."}` why it refuses.
pub proof fn law_reply_forms(ok: JsonView, why: Seq<char>, r: Result<Json, IpcError>)
    ensures
        is_payload(object1("Ok"@, ok), r) <==> r is Ok && r->Ok_0@ == ok,
        is_payload(object1("Err"@, JsonView::Text(why)), r) <==> (r matches Err(
            IpcError::Refused(said),
        ) && said@ == why),
{
    reveal_strlit("Ok");
    reveal_strlit("Err");
    reveal_with_fuel(lookup, 2);
    assert("Ok"@.len() != "Err"@.len());
    let members = seq![("Ok"@, ok)];
    assert(members[0].0 == "Ok"@);
    assert(members.drop_first().len() == 0);
    let refusal = seq![("Err"@, JsonView::Text(why))];
    assert(refusal[0].0 == "Err"@);
}

/// What a reply says: the payload of `Ok`, null if there is none; or that the request was refused,
/// and why.
pub fn payload(reply: Json) -> (r: Result<Json, IpcError>)
    ensures
        is_payload(reply@, r),
{
    if let Some(err) = reply.get("Err") {
        let why = match err.as_text() {
            Some(text) => text.to_owned(),
            None => "unknown error".to_owned(),
        };
        return Err(IpcError::Refused(why));
    }
    match reply.into_member("Ok") {
        Some(ok) => Ok(ok),
        None => Ok(Json::Null),
    }
}

/// The sockets that a request goes to: the one that answered last, if it is known, or else those
/// that were found.
pub fn request_sockets(remembered: Option<Vec<u8>>, found: Vec<Vec<u8>>) -> (r: Vec<Vec<u8>>)
    ensures
        path_views(r@) == (match remembered {
            Some(p) => seq![p@],
            None => path_views(found@),
        }),
{
    match remembered {
        Some(p) => {
            let r = vec![p];
            assert(path_views(r@) =~= seq![p@]);
            r
        },
        None => found,
    }
}

/// How a request went: the sockets answered with `outcomes`, in their order, of which all but the
/// last are failures. If the last is a reply, it decides, and its socket is remembered. If all
/// sockets failed, the last failure is the result, and no socket is remembered. Without any socket
/// nothing is tried, and nothing is forgotten.
pub open spec fn is_request_run(
    sockets: Seq<Vec<u8>>,
    outcomes: Seq<Result<Json, IpcError>>,
    before: Option<Vec<u8>>,
    after: Option<Vec<u8>>,
    r: Result<Json, IpcError>,
) -> bool {
    let n = outcomes.len();
    &&& n <= sockets.len()
    &&& forall|i: int| 0 <= i < n - 1 ==> (#[trigger] outcomes[i]) is Err
    &&& if n == 0 {
        &&& sockets.len() == 0
        &&& after == before
        &&& r == Err::<Json, _>(IpcError::NoSocket)
    } else {
        match outcomes[n - 1] {
            Ok(reply) => {
                &&& after is Some
                &&& after->0@ == sockets[n - 1]@
                &&& is_payload(reply@, r)
            },
            Err(e) => {
                &&& n == sockets.len()
                &&& after is None
                &&& r == Err::<Json, _>(e)
            },
        }
    }
}

/// Sends a request: `send` is called for one socket after the other, until one replies.
pub fn request<F: Fn(&Vec<u8>) -> Result<Json, IpcError>>(
    sockets: &Vec<Vec<u8>>,
    send: F,
    remembered: &mut Option<Vec<u8>>,
) -> (r: Result<Json, IpcError>)
    requires
        forall|i: int| 0 <= i < sockets@.len() ==> call_requires(send, (&#[trigger] sockets@[i],)),
    ensures
        exists|outcomes: Seq<Result<Json, IpcError>>|
            #![trigger is_request_run(sockets@, outcomes, *old(remembered), *final(remembered), r)]
            is_request_run(sockets@, outcomes, *old(remembered), *final(remembered), r) && forall|
                i: int,
            |
                0 <= i < outcomes.len() ==> call_ensures(
                    send,
                    (&sockets@[i],),
                    #[trigger] outcomes[i],
                ),
{
    let mut last: Option<IpcError> = None;
    let ghost mut outcomes: Seq<Result<Json, IpcError>> = Seq::empty();
    let mut i: usize = 0;
    while i < sockets.len()
        invariant
            i <= sockets@.len(),
            outcomes.len() == i,
            forall|j: int|
                0 <= j < sockets@.len() ==> call_requires(send, (&#[trigger] sockets@[j],)),
            forall|j: int|
                0 <= j < i ==> call_ensures(send, (&sockets@[j],), #[trigger] outcomes[j]),
            forall|j: int| 0 <= j < i ==> (#[trigger] outcomes[j]) is Err,
            i == 0 ==> last is None && *remembered == *old(remembered),
            i > 0 ==> last is Some && outcomes[i - 1] == Err::<Json, _>(last->0) && *remembered
                is None,
        decreases sockets@.len() - i,
    {
        let outcome = send(&sockets[i]);
        proof {
            outcomes = outcomes.push(outcome);
        }
        match outcome {
            Ok(reply) => {
                *remembered = Some(sockets[i].clone());
                assert(sockets@[i as int]@ =~= remembered->0@);
                let r = payload(reply);
                assert(is_request_run(sockets@, outcomes, *old(remembered), *remembered, r));
                return r;
            },
            Err(e) => {
                *remembered = None;
                last = Some(e);
            },
        }
        i = i + 1;
    }
    let r: Result<Json, IpcError> = match last {
        Some(e) => Err(e),
        None => Err(IpcError::NoSocket),
    };
    assert(is_request_run(sockets@, outcomes, *old(remembered), *remembered, r));
    r
}

/// The name of a socket begins with `niri.` and ends with `.sock`, whatever stands between.
pub proof fn law_socket_names(name: Seq<char>, between: Seq<char>)
    ensures
        is_socket_name("niri."@ + between + ".sock"@),
        is_socket_name(name) ==> name.len() >= 5 && name.take(5) == seq!['n', 'i', 'r', 'i', '.']
            && name.skip(name.len() - 5) == seq!['.', 's', 'o', 'c', 'k'],
        name.len() >= 5 && name.take(5) == "niri."@ && name.skip(name.len() - 5) == ".sock"@
            ==> is_socket_name(name),
{
    reveal_strlit("niri.");
    reveal_strlit(".sock");
    let whole = "niri."@ + between + ".sock"@;
    assert(whole.subrange(0, 5) =~= "niri."@);
    assert(whole.subrange(whole.len() - 5, whole.len() as int) =~= ".sock"@);
    assert("niri."@ =~= seq!['n', 'i', 'r', 'i', '.']);
    assert(".sock"@ =~= seq!['.', 's', 'o', 'c', 'k']);
    if is_socket_name(name) {
        assert(name.take(5) =~= "niri."@);
        assert(name.skip(name.len() - 5) =~= ".sock"@);
    }
    if name.len() >= 5 && name.take(5) == "niri."@ && name.skip(name.len() - 5) == ".sock"@ {
        assert(name.subrange(0, 5) =~= "niri."@);
        assert(name.subrange(name.len() - 5, name.len() as int) =~= ".sock"@);
    }
}

/// The sockets that are found are the entries of the directory that are named as sockets, each with
/// its own path, by their names.
pub proof fn law_sockets_are_the_entries_named_so(
    sorted: Seq<FoundSocketView>,
    entries: Seq<DirEntry>,
)
    requires
        in_socket_order(sorted, entries),
    ensures
        sorted.to_multiset() =~= entries.filter(
            |e: DirEntry| (e.name matches Some(n) && is_socket_name(n@)),
        ).map_values(
            |e: DirEntry| FoundSocketView { name: e.name->0@, path: e.path@ },
        ).to_multiset(),
        forall|i: int, j: int|
            0 <= i < j < sorted.len() && (#[trigger] sorted[i]).name != (
            #[trigger] sorted[j]).name ==> text_less(sorted[i].name, sorted[j].name),
        socket_paths(sorted).len() == sorted.len(),
        forall|i: int|
            0 <= i < sorted.len() ==> #[trigger] socket_paths(sorted)[i] == sorted[i].path,
{
    lemma_filter_map_is_filter(
        entries,
        |e: DirEntry| socket_of(e),
        |e: DirEntry| (e.name matches Some(n) && is_socket_name(n@)),
        |e: DirEntry| FoundSocketView { name: e.name->0@, path: e.path@ },
    );
    let key = |s: FoundSocketView| s.name;
    law_sorting_keeps_items(sorted, sockets_of(entries), key);
    assert forall|i: int, j: int|
        0 <= i < j < sorted.len() && (#[trigger] sorted[i]).name != (
        #[trigger] sorted[j]).name implies text_less(sorted[i].name, sorted[j].name) by {
        assert(key(sorted[i]) != key(sorted[j]));
    }
}

/// A reply that says `Err` refuses, whatever else it says, and for the reason that it gives, if that
/// is a text; any other reply is a success, and without an `Ok` its payload is null.
pub proof fn law_refusal_comes_first(reply: JsonView, r: Result<Json, IpcError>)
    requires
        is_payload(reply, r),
    ensures
        r is Err <==> reply.get("Err"@) is Some,
        r matches Err(e) ==> e is Refused,
        reply.get("Err"@) matches Some(JsonView::Text(why)) ==> (r matches Err(
            IpcError::Refused(said),
        ) && said@ == why),
        r is Ok ==> (reply.get("Ok"@) matches Some(ok) ==> r->Ok_0@ == ok),
        r is Ok && reply.get("Ok"@) is None ==> r->Ok_0@ is Null,
{
}

/// The first socket that replies decides: sockets are tried in their order up to that one, which is
/// remembered, and its reply is the answer. Where none replies, all have been tried, none is
/// remembered, and the last failure is the answer. Without sockets nothing changes.
pub proof fn law_first_reply_decides(
    sockets: Seq<Vec<u8>>,
    outcomes: Seq<Result<Json, IpcError>>,
    before: Option<Vec<u8>>,
    after: Option<Vec<u8>>,
    r: Result<Json, IpcError>,
    k: int,
)
    requires
        is_request_run(sockets, outcomes, before, after, r),
    ensures
        0 <= k < outcomes.len() && outcomes[k] is Ok ==> {
            &&& k == outcomes.len() - 1
            &&& k < sockets.len()
            &&& forall|i: int| 0 <= i < k ==> (#[trigger] outcomes[i]) is Err
            &&& after matches Some(path) && path@ == sockets[k]@
            &&& is_payload(outcomes[k]->Ok_0@, r)
        },
        sockets.len() > 0 && (forall|i: int|
            0 <= i < outcomes.len() ==> (#[trigger] outcomes[i]) is Err) ==> {
            &&& outcomes.len() == sockets.len()
            &&& after is None
            &&& r matches Err(e) && outcomes.last() == Err::<Json, IpcError>(e)
        },
        sockets.len() == 0 ==> outcomes.len() == 0 && after == before && r == Err::<Json, IpcError>(
            IpcError::NoSocket,
        ),
{
    if 0 <= k < outcomes.len() && outcomes[k] is Ok && k < outcomes.len() - 1 {
        assert(outcomes[k] is Err);
    }
}

} // verus!
