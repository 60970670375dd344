//! The assembled system: one store, the bus and lock pools, the emitter and
//! the key-value store, with the watcher protocol around mutating calls.
//!
//! A mutating call emits, in order and only on success: a `watch_` event
//! before and after the mutation, the semantic `change` or `rename` event,
//! and an event named after the call; every payload is a JSON array of the
//! call's string arguments. Emission never blocks: it only appends to the
//! subscribers' queues.

use vstd::prelude::*;
use crate::fs::{Fs, resolve_full_spec, wfile_ok, wfile_node, MAX_HOPS, O_WRONLY, O_CREAT, O_TRUNC,
    id_space_tight};
use crate::bus::BusRegistry;
use crate::emitter::{EmitterRegistry, Sub, emitted_to, surviving, lemma_emitted_to_subscriber};
use crate::kv::KvStore;
use crate::lock::LockRegistry;
use crate::tls::TlsArena;
use crate::ext::{json_string_array, json_of_strings};

verus! {

/// The whole system.
pub struct Wasabio {
    /// The mounted store.
    pub store: Fs,
    /// The bus pool that watcher events fan out into.
    pub buses: BusRegistry,
    /// The event emitter, keyed by component name.
    pub emitter: EmitterRegistry,
    /// The process-wide key-value store.
    pub kv: KvStore,
    /// The lock pool.
    pub locks: LockRegistry,
    /// The per-context scratch table.
    pub tls: TlsArena,
}

/// The event name carried by content changes.
pub open spec fn change_event() -> Seq<char> {
    "change"@
}

/// Some subscription of the list feeds this bus.
pub open spec fn subscribed(subs: Seq<Sub>, b: int) -> bool {
    exists|i: int| 0 <= i < subs.len() && (#[trigger] subs[i]).bus == b
}

/// A queue only grew, and the payload arrived among what was appended.
pub open spec fn delivered_after(q_old: Seq<Seq<char>>, q_new: Seq<Seq<char>>, v: Seq<char>) -> bool {
    &&& q_old.is_prefix_of(q_new)
    &&& exists|j: int| q_old.len() <= j < q_new.len() && q_new[j] == v
}

impl Wasabio {
    /// Everything the parts ask of themselves.
    pub open spec fn wf(self) -> bool {
        &&& self.store.wf()
        &&& self.buses.wf()
        &&& self.kv.wf()
        &&& self.locks.wf()
    }

    /// Boots the system: a fresh store mounted at the build time, and
    /// empty pools.
    pub fn boot(build_time: u64) -> (r: Wasabio)
        ensures
            r.wf(),
    {
        Wasabio {
            store: Fs::mount(build_time),
            buses: BusRegistry::new(),
            emitter: EmitterRegistry::new(),
            kv: KvStore::new(),
            locks: LockRegistry::new(),
            tls: TlsArena::new(),
        }
    }

    /// Emits one named event of the store's emitter with the given string
    /// arguments as a JSON-array payload.
    pub fn emit_fs(&mut self, event: &str, args: &Vec<String>)
        requires
            old(self).wf(),
        ensures
            final(self).wf(),
            final(self).store == old(self).store,
            final(self).kv == old(self).kv,
            final(self).locks == old(self).locks,
            final(self).buses.slot_count() == old(self).buses.slot_count(),
            ({
                let v = json_of_strings(args.deep_view());
                let subs = old(self).emitter.subs_of("fs"@, event@);
                &&& forall|b: int|
                    0 <= b < old(self).buses.slot_count() ==> final(self).buses.queue(b) == old(
                        self,
                    ).buses.queue(b) + emitted_to(subs, b, v)
                &&& final(self).emitter.subs_of("fs"@, event@) == surviving(subs)
            }),
            forall|n2: Seq<char>, e2: Seq<char>|
                n2 != "fs"@ || e2 != event@ ==> #[trigger] final(self).emitter.subs_of(n2, e2)
                    == old(self).emitter.subs_of(n2, e2),
    {
        match json_string_array(args) {
            Some(payload) => {
                self.emitter.emit("fs", event, &payload, &mut self.buses);
            },
            None => {
                proof {
                    assert(false);
                }
            },
        }
    }

    /// Writes a whole file, following links, and fans out the watcher
    /// events: `watch_` before and after, `change`, and the call's own
    /// event, each carrying the path. The store's change is exactly the
    /// underlying write; queues only grow, and on success every `change`
    /// subscriber's queue gained the payload.
    #[allow(non_snake_case)]
    #[verifier::rlimit(100)]
    pub fn writeFileSync(&mut self, path: &str, data: &Vec<u8>, now: u64) -> (r: Option<()>)
        requires
            old(self).wf(),
        ensures
            final(self).wf(),
            ({
                let t = old(self).store.tree();
                let res = resolve_full_spec(t, path@, MAX_HOPS as nat);
                let fb = O_WRONLY | O_CREAT | O_TRUNC;
                match r {
                    Option::Some(u) => {
                        let q = res.unwrap();
                        &&& res is Some
                        &&& wfile_ok(t, q, fb, data@.len())
                        &&& final(self).store.tree() == t.insert(
                            q,
                            wfile_node(
                                t,
                                q,
                                fb,
                                data@,
                                crate::DEFAULT_PERM_FILE,
                                now,
                                final(self).store.tree()[q].attr.ino,
                            ),
                        )
                    },
                    Option::None => {
                        &&& final(self).store.tree() == t
                        &&& (res is None || !wfile_ok(t, res.unwrap(), fb, data@.len()) || (
                        !t.contains_key(res.unwrap()) && id_space_tight(old(self).store.ino_ids())))
                    },
                }
            }),
            r is Some ==> (forall|b: int|
                0 <= b < old(self).buses.slot_count() && subscribed(
                    old(self).emitter.subs_of("fs"@, change_event()),
                    b,
                ) ==> #[trigger] delivered_after(
                    old(self).buses.queue(b),
                    final(self).buses.queue(b),
                    json_of_strings(seq![path@]),
                )),
    {
        let pv = crate::path::str_chars(path);
        let mut args: Vec<String> = Vec::new();
        args.push(crate::ext::chars_to_string(&pv));
        proof {
            assert(args.deep_view() =~~= seq![path@]);
        }
        let ghost nslots = old(self).buses.slot_count();
        let ghost q0 = Seq::new(nslots, |b: int| old(self).buses.queue(b));
        self.emit_fs("watch_", &args);
        let ghost q1 = Seq::new(nslots, |b: int| self.buses.queue(b));
        proof {
            assert forall|b: int| 0 <= b < nslots implies #[trigger] q0[b].is_prefix_of(q1[b]) by {
                assert(q1[b].subrange(0, q0[b].len() as int) =~= q0[b]);
            }
        }
        let wrote = self.store.write_file_sync(path, data, None, None, now);
        match wrote {
            Some(u) => {},
            None => {
                return None;
            },
        }
        proof {
            assert(forall|b: int| 0 <= b < nslots ==> self.buses.queue(b) == #[trigger] q1[b]);
        }
        self.emit_fs("watch_", &args);
        let ghost q2 = Seq::new(nslots, |b: int| self.buses.queue(b));
        proof {
            assert forall|b: int| 0 <= b < nslots implies #[trigger] q1[b].is_prefix_of(q2[b]) by {
                assert(q2[b].subrange(0, q1[b].len() as int) =~= q1[b]);
            }
        }
        let ghost subs_c = self.emitter.subs_of("fs"@, change_event());
        proof {
            reveal_strlit("watch_");
            reveal_strlit("change");
            assert("watch_"@.len() == 6 && "change"@.len() == 6);
            assert("watch_"@[0] == 'w' && "change"@[0] == 'c');
            assert("watch_"@ != "change"@);
            assert(subs_c == old(self).emitter.subs_of("fs"@, change_event()));
        }
        self.emit_fs("change", &args);
        let ghost q3 = Seq::new(nslots, |b: int| self.buses.queue(b));
        let ghost v = json_of_strings(seq![path@]);
        self.emit_fs("writeFileSync", &args);
        proof {
            let subs0 = old(self).emitter.subs_of("fs"@, change_event());
            assert(subs0 == subs_c);
            assert forall|b: int|
                0 <= b < old(self).buses.slot_count() && subscribed(subs0, b) implies #[trigger] delivered_after(
                old(self).buses.queue(b),
                self.buses.queue(b),
                v,
            ) by {
                lemma_emitted_to_subscriber(subs_c, b, v);
                let e = emitted_to(subs_c, b, v);
                assert(q3[b] == q2[b] + e);
                let q4 = self.buses.queue(b);
                assert(q4.subrange(0, q3[b].len() as int) =~= q3[b]);
                assert(q3[b].is_prefix_of(q4));
                let jj = q2[b].len() as int;
                assert(q3[b][jj] == e[0]);
                assert(jj < q3[b].len() <= q4.len());
                assert(q4[jj] == q3[b][jj]);
                assert(q0[b].len() <= q1[b].len() <= q2[b].len());
                assert(old(self).buses.queue(b) == q0[b]);
                assert(q0[b].is_prefix_of(q4)) by {
                    assert(forall|m: int| 0 <= m < q0[b].len() ==> q4[m] == q0[b][m]);
                    assert(q4.subrange(0, q0[b].len() as int) =~= q0[b]);
                }
                assert(q0[b].len() <= jj < q4.len() && q4[jj] == v);
            }
        }
        Some(())
    }
}



/// Two deliveries in a row land in order: what the first appended sits
/// before what the second appended.
pub proof fn lemma_events_in_order(
    q0: Seq<Seq<char>>,
    e1: Seq<Seq<char>>,
    e2: Seq<Seq<char>>,
    v1: Seq<char>,
    v2: Seq<char>,
)
    requires
        e1.len() >= 1,
        e2.len() >= 1,
        forall|j: int| 0 <= j < e1.len() ==> e1[j] == v1,
        forall|j: int| 0 <= j < e2.len() ==> e2[j] == v2,
    ensures
        ({
            let q2 = q0 + e1 + e2;
            exists|i: int, j: int|
                0 <= i < j < q2.len() && #[trigger] q2[i] == v1 && #[trigger] q2[j] == v2
        }),
{
    let q2 = q0 + e1 + e2;
    let i = q0.len() as int;
    let j = q0.len() + e1.len();
    assert(q2[i] == e1[0]);
    assert(q2[j as int] == e2[0]);
}

} // verus!
