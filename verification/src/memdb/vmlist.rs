//! Guest list: guest configuration files found below `nodes/<node>/qemu-server` and
//! `nodes/<node>/lxc`, and the names and paths that identify them.

use vstd::prelude::*;
use vstd::utf8::*;
use std::collections::HashMap;
use crate::api_types::{VmType, VmEntry, VmEntryView};
use crate::memdb::path::{SLASH, trim_start, trim_leading_slashes, bytes_eq};
use crate::memdb::database::{MemDb, MemDbView, readdir_outcome, entries_result, entry_views};
use crate::memdb::types::TreeEntryView;
use crate::text::{all_ascii, ascii_to_string};
use crate::wire::copy_range;

verus! {

broadcast use vstd::std_specs::hash::group_hash_axioms;

/// The bytes of `.conf`.
pub open spec fn conf_suffix() -> Seq<u8> {
    seq![46u8, 99u8, 111u8, 110u8, 102u8]
}

/// A decimal digit.
pub open spec fn is_digit(b: u8) -> bool {
    48 <= b <= 57
}

/// Value of a string of decimal digits.
pub open spec fn digits_value(s: Seq<u8>) -> int
    decreases s.len(),
{
    if s.len() == 0 {
        0
    } else {
        digits_value(s.drop_last()) * 10 + (s.last() - 48)
    }
}

/// Value of a non-empty string of decimal digits that fits 32 bits.
pub open spec fn parse_digits(d: Seq<u8>) -> Option<u32> {
    if d.len() == 0 || !(forall|i: int| 0 <= i < d.len() ==> is_digit(#[trigger] d[i])) || digits_value(d) > u32::MAX {
        None
    } else {
        Some(digits_value(d) as u32)
    }
}

/// Guest id of a configuration file name `<id>.conf`: the id is decimal digits, the first
/// of them `1` to `9`, and its value fits 32 bits.
pub open spec fn vm_config_id(name: Seq<u8>) -> Option<u32> {
    if name.len() < 5 || name.subrange(name.len() - 5, name.len() as int) != conf_suffix() {
        None
    } else {
        let s = name.subrange(0, name.len() - 5);
        if s.len() > 0 && s[0] == 48 {
            None
        } else {
            parse_digits(s)
        }
    }
}

/// Letters, digits and hyphens (ASCII).
pub open spec fn is_ldh(b: u8) -> bool {
    (48 <= b <= 57) || (65 <= b <= 90) || (97 <= b <= 122) || b == 45
}

/// Node names: 1 to 255 letters, digits and hyphens, not starting or ending with a hyphen.
pub open spec fn valid_nodename(n: Seq<u8>) -> bool {
    &&& 1 <= n.len() <= 255
    &&& n[0] != 45
    &&& n.last() != 45
    &&& forall|i: int| 0 <= i < n.len() ==> is_ldh(#[trigger] n[i])
}

proof fn lemma_digits_monotone(d: Seq<u8>, j: int, k: int)
    requires
        0 <= j <= k <= d.len(),
        forall|i: int| 0 <= i < d.len() ==> is_digit(#[trigger] d[i]),
    ensures
        0 <= digits_value(d.take(j)) <= digits_value(d.take(k)),
    decreases k - j,
{
    if j < k {
        lemma_digits_monotone(d, j, k - 1);
        assert(d.take(k).drop_last() =~= d.take(k - 1));
    } else {
        lemma_digits_nonneg(d.take(j));
    }
}

proof fn lemma_digits_nonneg(d: Seq<u8>)
    requires
        forall|i: int| 0 <= i < d.len() ==> is_digit(#[trigger] d[i]),
    ensures
        digits_value(d) >= 0,
    decreases d.len(),
{
    if d.len() > 0 {
        lemma_digits_nonneg(d.drop_last());
    }
}

/// Parses a non-empty string of decimal digits whose value fits 32 bits.
fn parse_decimal_u32(d: &[u8]) -> (r: Option<u32>)
    ensures
        r == parse_digits(d@),
{
    if d.len() == 0 {
        return None;
    }
    let mut acc: u64 = 0;
    let mut i: usize = 0;
    while i < d.len()
        invariant
            i <= d@.len(),
            forall|k: int| 0 <= k < i ==> is_digit(#[trigger] d@[k]),
            acc == digits_value(d@.take(i as int)),
            acc <= u32::MAX,
        decreases d@.len() - i,
    {
        let b = d[i];
        if b < 48 || b > 57 {
            assert(!is_digit(d@[i as int]));
            return None;
        }
        assert(d@.take(i + 1).drop_last() =~= d@.take(i as int));
        assert(d@.take(i + 1).last() == b);
        let next = acc * 10 + (b - 48) as u64;
        assert(next == digits_value(d@.take(i + 1)));
        if next > u32::MAX as u64 {
            proof {
                if forall|k: int| 0 <= k < d@.len() ==> is_digit(#[trigger] d@[k]) {
                    lemma_digits_monotone(d@, i + 1, d@.len() as int);
                    assert(d@.take(d@.len() as int) =~= d@);
                }
            }
            return None;
        }
        acc = next;
        i += 1;
    }
    assert(d@.take(i as int) =~= d@);
    Some(acc as u32)
}

/// Guest id of a configuration file name `<id>.conf`.
pub fn parse_vm_config_name(name: &str) -> (r: Option<u32>)
    ensures
        r == vm_config_id(encode_utf8(name@)),
{
    parse_config_name_bytes(name.as_bytes())
}

/// Whether all bytes are letters, digits or hyphens.
fn all_ldh(b: &[u8]) -> (r: bool)
    ensures
        r == (forall|i: int| 0 <= i < b@.len() ==> is_ldh(#[trigger] b@[i])),
{
    let mut i: usize = 0;
    while i < b.len()
        invariant
            i <= b@.len(),
            forall|k: int| 0 <= k < i ==> is_ldh(#[trigger] b@[k]),
        decreases b@.len() - i,
    {
        let c = b[i];
        if !((48 <= c && c <= 57) || (65 <= c && c <= 90) || (97 <= c && c <= 122) || c == 45) {
            assert(!is_ldh(b@[i as int]));
            return false;
        }
        i += 1;
    }
    true
}

/// Whether a node name is valid.
pub fn is_valid_nodename(name: &str) -> (r: bool)
    ensures
        r == valid_nodename(encode_utf8(name@)),
{
    let b = name.as_bytes();
    if b.len() == 0 || b.len() > 255 {
        return false;
    }
    if b[0] == 45 || b[b.len() - 1] == 45 {
        return false;
    }
    all_ldh(b)
}

/// Segments between slashes, empty ones included, scanning from `i` with the current
/// segment starting at `start`.
pub open spec fn split_scan(p: Seq<u8>, i: int, start: int) -> Seq<Seq<u8>>
    decreases p.len() - i,
{
    if i >= p.len() || i < 0 {
        seq![p.subrange(start, p.len() as int)]
    } else if p[i] == SLASH {
        seq![p.subrange(start, i)] + split_scan(p, i + 1, i + 1)
    } else {
        split_scan(p, i + 1, start)
    }
}

/// The segments of a path between slashes, empty ones included.
pub open spec fn split_all(p: Seq<u8>) -> Seq<Seq<u8>> {
    split_scan(p, 0, 0)
}

/// The bytes of `nodes`.
pub open spec fn nodes_bytes() -> Seq<u8> {
    seq![110u8, 111u8, 100u8, 101u8, 115u8]
}

/// The bytes of `qemu-server`.
pub open spec fn qemu_dir_bytes() -> Seq<u8> {
    seq![113u8, 101u8, 109u8, 117u8, 45u8, 115u8, 101u8, 114u8, 118u8, 101u8, 114u8]
}

/// The bytes of `lxc`.
pub open spec fn lxc_dir_bytes() -> Seq<u8> {
    seq![108u8, 120u8, 99u8]
}

/// The guest a configuration path names: `nodes/<node>/qemu-server/<id>.conf` or
/// `nodes/<node>/lxc/<id>.conf` (leading slashes ignored), with the node name's bytes.
pub open spec fn vm_config_path(p: Seq<u8>) -> Option<(Seq<u8>, VmType, u32)> {
    let parts = split_all(trim_start(p));
    if parts.len() != 4 || parts[0] != nodes_bytes() || !valid_nodename(parts[1]) {
        None
    } else {
        let t = if parts[2] == qemu_dir_bytes() {
            Some(VmType::Qemu)
        } else if parts[2] == lxc_dir_bytes() {
            Some(VmType::Lxc)
        } else {
            None
        };
        match t {
            None => None,
            Some(t) => match vm_config_id(parts[3]) {
                None => None,
                Some(id) => Some((parts[1], t, id)),
            },
        }
    }
}

/// Splits a path at every slash.
fn split_segments(p: &[u8]) -> (r: Vec<Vec<u8>>)
    ensures
        crate::memdb::path::byte_views(r@) == split_all(p@),
{
    let mut acc: Vec<Vec<u8>> = Vec::new();
    let mut start: usize = 0;
    let mut i: usize = 0;
    while i < p.len()
        invariant
            start <= i <= p@.len(),
            crate::memdb::path::byte_views(acc@) + split_scan(p@, i as int, start as int) == split_all(p@),
        decreases p@.len() - i,
    {
        if p[i] == SLASH {
            let c = copy_range(p, start, i);
            let ghost before = acc@;
            acc.push(c);
            assert(crate::memdb::path::byte_views(acc@) =~= crate::memdb::path::byte_views(before) + seq![p@.subrange(start as int, i as int)]);
            assert(crate::memdb::path::byte_views(acc@) + split_scan(p@, i + 1, i + 1) =~= split_all(p@));
            start = i + 1;
        }
        i += 1;
    }
    let c = copy_range(p, start, p.len());
    let ghost before = acc@;
    acc.push(c);
    assert(crate::memdb::path::byte_views(acc@) =~= crate::memdb::path::byte_views(before) + seq![p@.subrange(start as int, p@.len() as int)]);
    assert(crate::memdb::path::byte_views(acc@) =~= split_all(p@));
    acc
}

fn literal_eq(a: &Vec<u8>, b: &[u8], lit: Ghost<Seq<u8>>) -> (r: bool)
    requires
        b@ == lit@,
    ensures
        r == (a@ == lit@),
{
    bytes_eq(a.as_slice(), b)
}

/// The guest a configuration path names, with its node name.
pub fn parse_vm_config_path(path: &str) -> (r: Option<(String, VmType, u32)>)
    ensures
        match r {
            Some((node, t, id)) => vm_config_path(encode_utf8(path@)) == Some((encode_utf8(node@), t, id)),
            None => vm_config_path(encode_utf8(path@)) is None,
        },
{
    let t = trim_leading_slashes(path.as_bytes());
    let parts = split_segments(t.as_slice());
    proof {
        assert(parts@.len() == split_all(t@).len());
    }
    if parts.len() != 4 {
        return None;
    }
    let nodes = vec![110u8, 111u8, 100u8, 101u8, 115u8];
    assert(nodes@ =~= nodes_bytes());
    assert(parts@[0]@ == split_all(t@)[0]);
    assert(parts@[1]@ == split_all(t@)[1]);
    assert(parts@[2]@ == split_all(t@)[2]);
    assert(parts@[3]@ == split_all(t@)[3]);
    if !literal_eq(&parts[0], nodes.as_slice(), Ghost(nodes_bytes())) {
        return None;
    }
    let nb = &parts[1];
    let n = nb.len();
    if n == 0 || n > 255 || nb[0] == 45 || nb[n - 1] == 45 {
        return None;
    }
    if !all_ldh(nb.as_slice()) {
        return None;
    }
    assert(valid_nodename(nb@));
    let qemu = vec![113u8, 101u8, 109u8, 117u8, 45u8, 115u8, 101u8, 114u8, 118u8, 101u8, 114u8];
    assert(qemu@ =~= qemu_dir_bytes());
    let lxc = vec![108u8, 120u8, 99u8];
    assert(lxc@ =~= lxc_dir_bytes());
    let vmtype = if literal_eq(&parts[2], qemu.as_slice(), Ghost(qemu_dir_bytes())) {
        VmType::Qemu
    } else if literal_eq(&parts[2], lxc.as_slice(), Ghost(lxc_dir_bytes())) {
        VmType::Lxc
    } else {
        return None;
    };
    let fname = &parts[3];
    let id = match parse_config_name_bytes(fname.as_slice()) {
        Some(id) => id,
        None => return None,
    };
    proof {
        assert forall|k: int| 0 <= k < nb@.len() implies #[trigger] nb@[k] < 128 by {
            assert(is_ldh(nb@[k]));
        }
        assert(all_ascii(nb@));
    }
    let node = ascii_to_string(nb);
    Some((node, vmtype, id))
}

/// Guest id of a configuration file name given as bytes.
fn parse_config_name_bytes(b: &[u8]) -> (r: Option<u32>)
    ensures
        r == vm_config_id(b@),
{
    let n = b.len();
    if n < 5 {
        return None;
    }
    if !(b[n - 5] == 46 && b[n - 4] == 99 && b[n - 3] == 111 && b[n - 2] == 110 && b[n - 1] == 102) {
        assert(b@.subrange(n - 5, n as int) != conf_suffix()) by {
            if b@.subrange(n - 5, n as int) == conf_suffix() {
                assert(b@.subrange(n - 5, n as int)[0] == b@[n - 5]);
                assert(b@.subrange(n - 5, n as int)[1] == b@[n - 4]);
                assert(b@.subrange(n - 5, n as int)[2] == b@[n - 3]);
                assert(b@.subrange(n - 5, n as int)[3] == b@[n - 2]);
                assert(b@.subrange(n - 5, n as int)[4] == b@[n - 1]);
            }
        }
        return None;
    }
    assert(b@.subrange(n - 5, n as int) =~= conf_suffix());
    let s = vstd::slice::slice_subrange(b, 0, n - 5);
    if s.len() > 0 && s[0] == 48 {
        return None;
    }
    parse_decimal_u32(s)
}

} // verus!

verus! {

/// Guest entries taken by their views.
pub open spec fn vm_views(m: Map<u32, VmEntry>) -> Map<u32, VmEntryView> {
    m.map_values(|v: VmEntry| v@)
}

/// Guest list after scanning the configuration files `es` of `node` of type `t`, with
/// whether a duplicate across nodes was seen: each `<id>.conf` adds the guest unless its
/// id is listed already; an id listed already for another node is a duplicate.
pub open spec fn vm_scan(
    st: (Map<u32, VmEntryView>, bool),
    node: Seq<char>,
    t: VmType,
    es: Seq<TreeEntryView>,
) -> (Map<u32, VmEntryView>, bool)
    decreases es.len(),
{
    if es.len() == 0 {
        st
    } else {
        let st1 = vm_scan(st, node, t, es.drop_last());
        let m1 = st1.0;
        let e = es.last();
        match vm_config_id(encode_utf8(e.name)) {
            Some(id) => if m1.contains_key(id) {
                (m1, st1.1 || m1[id].node != node)
            } else {
                (m1.insert(id, VmEntryView { vmid: id, vmtype: t, node, version: e.version as u32 }), st1.1)
            },
            None => st1,
        }
    }
}

/// Path of the configuration directory of guests of type `t` on a node.
pub open spec fn guest_dir(node: Seq<char>, t: VmType) -> Seq<u8> {
    nodes_bytes() + seq![SLASH] + encode_utf8(node) + seq![SLASH] + (match t {
        VmType::Qemu => qemu_dir_bytes(),
        VmType::Lxc => lxc_dir_bytes(),
    })
}

/// Scan state after the configuration directory of type `t` of a node, if it can be listed.
pub open spec fn scan_dir(
    db: MemDbView,
    st: (Map<u32, VmEntryView>, bool),
    node: Seq<char>,
    t: VmType,
) -> (Map<u32, VmEntryView>, bool) {
    match readdir_outcome(db, guest_dir(node, t)) {
        Ok(es) => vm_scan(st, node, t, es),
        Err(_) => st,
    }
}

/// Scan state after the nodes `ns` in order (directories with valid names only), each
/// first for virtual machines, then for containers.
pub open spec fn nodes_scan(db: MemDbView, ns: Seq<TreeEntryView>) -> (Map<u32, VmEntryView>, bool)
    decreases ns.len(),
{
    if ns.len() == 0 {
        (Map::empty(), false)
    } else {
        let st = nodes_scan(db, ns.drop_last());
        let n = ns.last();
        if n.entry_type != crate::memdb::types::DT_DIR || !valid_nodename(encode_utf8(n.name)) {
            st
        } else {
            scan_dir(db, scan_dir(db, st, n.name, VmType::Qemu), n.name, VmType::Lxc)
        }
    }
}

/// Scan state of a whole database.
pub open spec fn vmlist_scan(db: MemDbView) -> (Map<u32, VmEntryView>, bool) {
    match readdir_outcome(db, nodes_bytes()) {
        Ok(ns) => nodes_scan(db, ns),
        Err(_) => (Map::empty(), false),
    }
}

/// The guest list of a database: all guests configured below `nodes`, the first one found
/// for each id.
pub open spec fn vmlist_spec(db: MemDbView) -> Map<u32, VmEntryView> {
    vmlist_scan(db).0
}

/// Some guest id is configured under two different nodes.
pub open spec fn vmlist_has_duplicate(db: MemDbView) -> bool {
    vmlist_scan(db).1
}

/// Adds the guests of one configuration directory, recording a duplicate across nodes.
fn scan_guest_dir(db: &MemDb, m: &mut HashMap<u32, VmEntry>, dup: &mut bool, node: &String, t: VmType)
    requires
        db.wf(),
    ensures
        (vm_views(final(m)@), *final(dup)) == scan_dir(db@, (vm_views(old(m)@), *old(dup)), node@, t),
{
    let mut p: Vec<u8> = vec![110u8, 111u8, 100u8, 101u8, 115u8];
    p.push(SLASH);
    crate::wire::push_bytes(&mut p, node.as_str().as_bytes());
    p.push(SLASH);
    match t {
        VmType::Qemu => {
            let d = vec![113u8, 101u8, 109u8, 117u8, 45u8, 115u8, 101u8, 114u8, 118u8, 101u8, 114u8];
            crate::wire::push_bytes(&mut p, d.as_slice());
            assert(d@ =~= qemu_dir_bytes());
        },
        VmType::Lxc => {
            let d = vec![108u8, 120u8, 99u8];
            crate::wire::push_bytes(&mut p, d.as_slice());
            assert(d@ =~= lxc_dir_bytes());
        },
    }
    assert(p@ =~= guest_dir(node@, t));
    let es = match db.readdir_bytes(p.as_slice()) {
        Ok(es) => es,
        Err(_) => return,
    };
    let ghost s = entry_views(es@);
    let ghost st0 = (vm_views(m@), *dup);
    let mut j: usize = 0;
    while j < es.len()
        invariant
            j <= es@.len(),
            s == entry_views(es@),
            (vm_views(m@), *dup) == vm_scan(st0, node@, t, s.take(j as int)),
        decreases es@.len() - j,
    {
        let e = &es[j];
        assert(s.take(j + 1).drop_last() =~= s.take(j as int));
        assert(s.take(j + 1).last() == e@);
        match parse_config_name_bytes(e.name.as_str().as_bytes()) {
            Some(id) => {
                match m.get(&id) {
                    Some(v) => {
                        let same = bytes_eq(v.node.as_str().as_bytes(), node.as_str().as_bytes());
                        proof {
                            crate::text::lemma_utf8_roundtrip(v.node@);
                            crate::text::lemma_utf8_roundtrip(node@);
                            assert(vm_views(m@)[id] == v@);
                            assert(same == (v.node@ == node@));
                        }
                        if !same {
                            *dup = true;
                        }
                    },
                    None => {
                        let ghost before = m@;
                        let v = VmEntry { vmid: id, vmtype: t, node: node.clone(), version: e.version as u32 };
                        m.insert(id, v);
                        assert(vm_views(m@) =~= vm_views(before).insert(id, v@));
                    },
                }
            },
            None => {},
        }
        j += 1;
    }
    assert(s.take(j as int) =~= s);
}

/// Rebuilds the guest list from the configuration files below `nodes`. A guest id
/// configured under two different nodes is an error; otherwise the first configuration
/// found for each id is listed.
pub fn recreate_vmlist(db: &MemDb) -> (r: Result<HashMap<u32, VmEntry>, crate::memdb::database::MemDbError>)
    requires
        db.wf(),
    ensures
        vmlist_has_duplicate(db@) ==> r == Err::<HashMap<u32, VmEntry>, crate::memdb::database::MemDbError>(
            crate::memdb::database::MemDbError::DuplicateVmid,
        ),
        !vmlist_has_duplicate(db@) ==> (r matches Ok(m) && vm_views(m@) == vmlist_spec(db@)),
{
    let mut m: HashMap<u32, VmEntry> = HashMap::new();
    let mut dup = false;
    assert(vm_views(m@) =~= Map::<u32, VmEntryView>::empty());
    let nodes = vec![110u8, 111u8, 100u8, 101u8, 115u8];
    assert(nodes@ =~= nodes_bytes());
    let ns = match db.readdir_bytes(nodes.as_slice()) {
        Ok(ns) => ns,
        Err(_) => return Ok(m),
    };
    let ghost s = entry_views(ns@);
    let mut i: usize = 0;
    while i < ns.len()
        invariant
            db.wf(),
            i <= ns@.len(),
            s == entry_views(ns@),
            (vm_views(m@), dup) == nodes_scan(db@, s.take(i as int)),
        decreases ns@.len() - i,
    {
        let n = &ns[i];
        assert(s.take(i + 1).drop_last() =~= s.take(i as int));
        assert(s.take(i + 1).last() == n@);
        if n.is_dir() && is_valid_nodename(n.name.as_str()) {
            scan_guest_dir(db, &mut m, &mut dup, &n.name, VmType::Qemu);
            scan_guest_dir(db, &mut m, &mut dup, &n.name, VmType::Lxc);
        }
        i += 1;
    }
    assert(s.take(i as int) =~= s);
    if dup {
        return Err(crate::memdb::database::MemDbError::DuplicateVmid);
    }
    Ok(m)
}

/// Decimal digits of a number, most significant first, without leading zeros.
pub open spec fn decimal_bytes(v: nat) -> Seq<u8>
    decreases v,
{
    if v < 10 {
        seq![(48 + v) as u8]
    } else {
        decimal_bytes(v / 10).push((48 + v % 10) as u8)
    }
}

/// The configuration directory of a guest type: `qemu-server` or `lxc`.
pub open spec fn type_dir_bytes(t: VmType) -> Seq<u8> {
    match t {
        VmType::Qemu => qemu_dir_bytes(),
        VmType::Lxc => lxc_dir_bytes(),
    }
}

/// The configuration path of a guest: `nodes/<node>/<type dir>/<id>.conf`.
pub open spec fn config_path_bytes(node: Seq<u8>, t: VmType, id: u32) -> Seq<u8> {
    nodes_bytes() + seq![SLASH] + node + seq![SLASH] + type_dir_bytes(t) + seq![SLASH] + decimal_bytes(id as nat)
        + conf_suffix()
}

proof fn lemma_decimal_bytes(v: nat)
    ensures
        decimal_bytes(v).len() > 0,
        forall|i: int| 0 <= i < decimal_bytes(v).len() ==> is_digit(#[trigger] decimal_bytes(v)[i]),
        digits_value(decimal_bytes(v)) == v,
        v >= 1 ==> decimal_bytes(v)[0] != 48,
    decreases v,
{
    let d = decimal_bytes(v);
    if v < 10 {
        assert(d.drop_last() =~= Seq::<u8>::empty());
        assert(digits_value(Seq::<u8>::empty()) == 0);
        assert(d.last() == (48 + v) as u8);
    } else {
        lemma_decimal_bytes(v / 10);
        let h = decimal_bytes(v / 10);
        assert(d.drop_last() =~= h);
        assert(d[0] == h[0]);
        assert forall|i: int| 0 <= i < d.len() implies is_digit(#[trigger] d[i]) by {
            if i < h.len() {
                assert(d[i] == h[i]);
            }
        }
        assert(d.last() == (48 + v % 10) as u8);
        assert(d.last() - 48 == v % 10);
        assert(v == (v / 10) * 10 + v % 10);
        assert(digits_value(d) == digits_value(h) * 10 + (d.last() - 48));
    }
}

/// The segments of a path past a segment without slashes that ends at `j`.
proof fn lemma_split_segment(p: Seq<u8>, i: int, start: int, j: int)
    requires
        0 <= start <= i <= j <= p.len(),
        forall|k: int| i <= k < j ==> p[k] != SLASH,
    ensures
        j < p.len() && p[j] == SLASH ==> split_scan(p, i, start) == seq![p.subrange(start, j)] + split_scan(p, j + 1, j + 1),
        j == p.len() ==> split_scan(p, i, start) == seq![p.subrange(start, p.len() as int)],
    decreases j - i,
{
    if i < j {
        lemma_split_segment(p, i + 1, start, j);
    }
}

/// Whether no byte is a slash.
pub open spec fn slash_free(b: Seq<u8>) -> bool {
    forall|k: int| 0 <= k < b.len() ==> b[k] != SLASH
}

/// Four segments without slashes, joined by slashes, split back into themselves.
proof fn lemma_split_four(a: Seq<u8>, b: Seq<u8>, c: Seq<u8>, d: Seq<u8>)
    requires
        slash_free(a),
        slash_free(b),
        slash_free(c),
        slash_free(d),
    ensures
        split_all(a + seq![SLASH] + b + seq![SLASH] + c + seq![SLASH] + d) == seq![a, b, c, d],
{
    let body = a + seq![SLASH] + b + seq![SLASH] + c + seq![SLASH] + d;
    let i1 = a.len() as int;
    let i2 = i1 + 1 + b.len();
    let i3 = i2 + 1 + c.len();
    assert(body.len() == i3 + 1 + d.len());
    assert forall|k: int| 0 <= k < i1 implies body[k] != SLASH by {
        assert(body[k] == a[k]);
    }
    assert(body[i1] == SLASH);
    assert forall|k: int| i1 + 1 <= k < i2 implies body[k] != SLASH by {
        assert(body[k] == b[k - i1 - 1]);
    }
    assert(body[i2] == SLASH);
    assert forall|k: int| i2 + 1 <= k < i3 implies body[k] != SLASH by {
        assert(body[k] == c[k - i2 - 1]);
    }
    assert(body[i3] == SLASH);
    assert forall|k: int| i3 + 1 <= k < body.len() implies body[k] != SLASH by {
        assert(body[k] == d[k - i3 - 1]);
    }
    lemma_split_segment(body, 0, 0, i1);
    lemma_split_segment(body, i1 + 1, i1 + 1, i2);
    lemma_split_segment(body, i2 + 1, i2 + 1, i3);
    lemma_split_segment(body, i3 + 1, i3 + 1, body.len() as int);
    assert(body.subrange(0, i1) =~= a);
    assert(body.subrange(i1 + 1, i2) =~= b);
    assert(body.subrange(i2 + 1, i3) =~= c);
    assert(body.subrange(i3 + 1, body.len() as int) =~= d);
    assert(split_all(body) =~= seq![a, b, c, d]);
}

/// A configuration path reads back: with or without a leading slash, the path of a guest
/// of a valid node name, of either type and with an id of at least 1 names that guest.
pub proof fn lemma_config_path_readback(node: Seq<u8>, t: VmType, id: u32, lead: bool)
    requires
        valid_nodename(node),
        id >= 1,
    ensures
        vm_config_path((if lead { seq![SLASH] } else { Seq::<u8>::empty() }) + config_path_bytes(node, t, id))
            == Some((node, t, id)),
{
    let a = nodes_bytes();
    let c = type_dir_bytes(t);
    let dec = decimal_bytes(id as nat);
    lemma_decimal_bytes(id as nat);
    let d = dec + conf_suffix();
    let body = config_path_bytes(node, t, id);
    assert(body =~= a + seq![SLASH] + node + seq![SLASH] + c + seq![SLASH] + d);
    let p = (if lead { seq![SLASH] } else { Seq::<u8>::empty() }) + body;
    assert(body[0] == 110u8);
    if lead {
        assert(p.drop_first() =~= body);
        assert(p[0] == SLASH);
        assert(trim_start(p) == trim_start(body));
    } else {
        assert(p =~= body);
    }
    assert(trim_start(body) == body);
    assert(trim_start(p) == body);
    assert(slash_free(node)) by {
        assert forall|k: int| 0 <= k < node.len() implies node[k] != SLASH by {
            assert(is_ldh(node[k]));
        }
    }
    assert(slash_free(d)) by {
        assert forall|k: int| 0 <= k < d.len() implies d[k] != SLASH by {
            if k < dec.len() {
                assert(d[k] == dec[k]);
                assert(is_digit(dec[k]));
            } else {
                assert(d[k] == conf_suffix()[k - dec.len()]);
            }
        }
    }
    lemma_split_four(a, node, c, d);
    assert(nodes_bytes() == a);
    let parts = split_all(body);
    assert(parts == seq![a, node, c, d]);
    assert(qemu_dir_bytes() != lxc_dir_bytes()) by {
        assert(qemu_dir_bytes().len() != lxc_dir_bytes().len());
    }
    assert(d.subrange(d.len() - 5, d.len() as int) =~= conf_suffix());
    assert(d.subrange(0, d.len() - 5) =~= dec);
    assert(dec[0] != 48);
    assert(vm_config_id(d) == Some(id));
}

/// Whether guest `v` was found, under id `id`, in the listing of its configuration
/// directory: an entry there is named `<id>.conf` and the guest carries that entry's
/// version.
pub open spec fn found_in_dir(db: MemDbView, id: u32, v: VmEntryView) -> bool {
    &&& v.vmid == id
    &&& match readdir_outcome(db, guest_dir(v.node, v.vmtype)) {
        Ok(es) => exists|i: int|
            0 <= i < es.len() && vm_config_id(encode_utf8(#[trigger] es[i].name)) == Some(id) && v.version
                == es[i].version as u32,
        Err(_) => false,
    }
}

/// Every guest of a list was found in its configuration directory.
pub open spec fn all_found(db: MemDbView, m: Map<u32, VmEntryView>) -> bool {
    forall|id: u32| #[trigger] m.contains_key(id) ==> found_in_dir(db, id, m[id])
}

proof fn lemma_vm_scan_found(
    db: MemDbView,
    st: (Map<u32, VmEntryView>, bool),
    node: Seq<char>,
    t: VmType,
    full: Seq<TreeEntryView>,
    es: Seq<TreeEntryView>,
)
    requires
        readdir_outcome(db, guest_dir(node, t)) == Ok::<Seq<TreeEntryView>, crate::memdb::database::MemDbError>(full),
        es.len() <= full.len(),
        es == full.take(es.len() as int),
        all_found(db, st.0),
    ensures
        all_found(db, vm_scan(st, node, t, es).0),
    decreases es.len(),
{
    if es.len() > 0 {
        let d = es.drop_last();
        assert(d == full.take(d.len() as int));
        lemma_vm_scan_found(db, st, node, t, full, d);
        let st1 = vm_scan(st, node, t, d);
        let e = es.last();
        let k = es.len() - 1;
        assert(full[k] == e);
        match vm_config_id(encode_utf8(e.name)) {
            Some(id) => {
                if !st1.0.contains_key(id) {
                    let v = VmEntryView { vmid: id, vmtype: t, node, version: e.version as u32 };
                    assert(readdir_outcome(db, guest_dir(v.node, v.vmtype)) == Ok::<Seq<TreeEntryView>, crate::memdb::database::MemDbError>(full));
                    assert(vm_config_id(encode_utf8(full[k].name)) == Some(id));
                    assert(v.version == full[k].version as u32);
                    assert(0 <= k < full.len());
                    assert(found_in_dir(db, id, v));
                    let m2 = st1.0.insert(id, v);
                    assert forall|j: u32| #[trigger] m2.contains_key(j) implies found_in_dir(db, j, m2[j]) by {
                        if j != id {
                            assert(st1.0.contains_key(j));
                        }
                    }
                }
            },
            None => {},
        }
    }
}

proof fn lemma_nodes_scan_found(db: MemDbView, ns: Seq<TreeEntryView>)
    ensures
        all_found(db, nodes_scan(db, ns).0),
    decreases ns.len(),
{
    if ns.len() == 0 {
        assert(all_found(db, Map::<u32, VmEntryView>::empty()));
    } else {
        lemma_nodes_scan_found(db, ns.drop_last());
        let st = nodes_scan(db, ns.drop_last());
        let n = ns.last();
        if n.entry_type == crate::memdb::types::DT_DIR && valid_nodename(encode_utf8(n.name)) {
            let st1 = scan_dir(db, st, n.name, VmType::Qemu);
            if let Ok(es) = readdir_outcome(db, guest_dir(n.name, VmType::Qemu)) {
                assert(es == es.take(es.len() as int));
                lemma_vm_scan_found(db, st, n.name, VmType::Qemu, es, es);
            }
            if let Ok(es) = readdir_outcome(db, guest_dir(n.name, VmType::Lxc)) {
                assert(es == es.take(es.len() as int));
                lemma_vm_scan_found(db, st1, n.name, VmType::Lxc, es, es);
            }
        }
    }
}

/// Every guest that the guest list holds was found in the listing of its configuration
/// directory (`nodes/<node>/qemu-server` or `nodes/<node>/lxc`): an entry there is named
/// `<id>.conf` and the guest's version is that entry's version (its low 32 bits), whatever
/// the entry's mtime.
pub proof fn lemma_vmlist_versions(db: MemDbView)
    ensures
        all_found(db, vmlist_spec(db)),
{
    match readdir_outcome(db, nodes_bytes()) {
        Ok(ns) => lemma_nodes_scan_found(db, ns),
        Err(_) => {
            assert(all_found(db, Map::<u32, VmEntryView>::empty()));
        },
    }
}

} // verus!
