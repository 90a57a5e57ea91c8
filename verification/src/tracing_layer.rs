//! The span lifecycle tracker: what happens when a span is created, entered
//! for the first time, and exited.

use crate::registry::{intern_all, interned, lemma_intern_all_prefix, names_of, NameRegistry};
use crate::types::{elapsed_between, SpanMsg, Timestamp};
use vstd::prelude::*;

verus! {

/// A string-valued attribute of a span.
#[derive(Debug)]
pub struct StrField {
    pub name: &'static str,
    pub value: String,
}

/// What the tracker keeps with each span.
#[derive(Debug, Clone, Copy)]
pub struct SpanExtensions {
    /// The id of the declared name, if the span declared one.
    pub name_id: Option<u32>,
    /// The time of the first activation, if there was one.
    pub started_at: Option<Timestamp>,
}

impl SpanExtensions {
    /// A recorded first activation is a proper clock reading.
    pub open spec fn wf(self) -> bool {
        self.started_at matches Some(started_at) ==> started_at.wf()
    }
}

/// The attribute that declares the name of a span.
pub open spec fn name_key() -> Seq<char> {
    seq!['n', 'a', 'm', 'e']
}

/// Picks the declared name out of the attributes of a span, and interns it.
pub struct NameVisitor {
    /// The id of the last declared name that was seen.
    pub field: Option<u32>,
}

impl NameVisitor {
    /// Takes one string-valued attribute: a declared name is interned and its
    /// id kept; any other attribute is passed over.
    pub fn record_str(&mut self, names: &mut NameRegistry, field: &str, value: &str)
        requires
            old(names).wf(),
            field@ == name_key() ==> old(names)@.contains(value@) || old(names)@.len() <= u32::MAX,
        ensures
            final(names).wf(),
            final(names)@ == (if field@ == name_key() {
                interned(old(names)@, value@)
            } else {
                old(names)@
            }),
            final(self).field == (if field@ == name_key() {
                Some(final(names)@.index_of(value@) as u32)
            } else {
                old(self).field
            }),
    {
        proof {
            reveal_strlit("name");
            assert("name"@ =~= name_key());
        }
        if field.eq("name") {
            let id = names.intern(value);
            proof {
                names.lemma_distinct();
            }
            self.field = Some(id);
        }
    }
}

/// The values of the attributes that declare a name, in order.
pub open spec fn declared_names(fields: Seq<StrField>) -> Seq<Seq<char>>
    decreases fields.len(),
{
    if fields.len() == 0 {
        Seq::empty()
    } else if fields.last().name@ == name_key() {
        declared_names(fields.drop_last()).push(fields.last().value@)
    } else {
        declared_names(fields.drop_last())
    }
}

/// The message that the completion of a span gives: none unless the span
/// has both a name id and a first activation; else its ids, its scope, and
/// the time from the first activation to `now`. A span without a parent has
/// parent id `0`.
pub open spec fn completed_span(
    extensions: SpanExtensions,
    span_id: u64,
    parent: Option<u64>,
    scope: &'static str,
    now: Timestamp,
) -> Option<SpanMsg> {
    match (extensions.started_at, extensions.name_id) {
        (Some(started_at), Some(name_id)) => Some(
            SpanMsg {
                span_id,
                parent_id: match parent {
                    Some(id) => id,
                    None => 0,
                },
                name_id,
                scope,
                duration: elapsed_between(started_at, now),
            },
        ),
        _ => None,
    }
}

/// A span declares at most as many names as it has attributes: a registry
/// with as many free ids as the span has attributes has room for it.
pub proof fn lemma_declared_names_len(fields: Seq<StrField>)
    ensures
        declared_names(fields).len() <= fields.len(),
    decreases fields.len(),
{
    if fields.len() > 0 {
        lemma_declared_names_len(fields.drop_last());
    }
}

/// The declared names of the first `n` attributes are the first declared
/// names of all of them.
proof fn lemma_declared_names_take(fields: Seq<StrField>, n: int)
    requires
        0 <= n <= fields.len(),
    ensures
        declared_names(fields.take(n)).len() <= declared_names(fields).len(),
        declared_names(fields.take(n)) == declared_names(fields).take(
            declared_names(fields.take(n)).len() as int,
        ),
    decreases fields.len(),
{
    if n == fields.len() {
        assert(fields.take(n) =~= fields);
        assert(declared_names(fields).take(declared_names(fields).len() as int) =~= declared_names(
            fields,
        ));
    } else {
        lemma_declared_names_take(fields.drop_last(), n);
        assert(fields.drop_last().take(n) =~= fields.take(n));
        let part = declared_names(fields.take(n));
        assert(declared_names(fields.drop_last()).take(part.len() as int) =~= declared_names(
            fields,
        ).take(part.len() as int));
    }
}

/// One step of taking in the attributes of a span: a declared name is
/// interned, any other attribute leaves the table as it is; and the table
/// never outgrows the one that all the attributes give.
proof fn lemma_on_new_span_step(table: Seq<Seq<char>>, fields: Seq<StrField>, i: int)
    requires
        0 <= i < fields.len(),
    ensures
        declared_names(fields.take(i + 1)) == (if fields[i].name@ == name_key() {
            declared_names(fields.take(i)).push(fields[i].value@)
        } else {
            declared_names(fields.take(i))
        }),
        intern_all(table, declared_names(fields.take(i + 1))) == (if fields[i].name@
            == name_key() {
            interned(intern_all(table, declared_names(fields.take(i))), fields[i].value@)
        } else {
            intern_all(table, declared_names(fields.take(i)))
        }),
        intern_all(table, declared_names(fields.take(i + 1))).len() <= intern_all(
            table,
            declared_names(fields),
        ).len(),
{
    let before = declared_names(fields.take(i));
    let after = declared_names(fields.take(i + 1));
    assert(fields.take(i + 1).drop_last() =~= fields.take(i));
    if fields[i].name@ == name_key() {
        assert(after.drop_last() =~= before);
    }
    lemma_declared_names_take(fields, i + 1);
    lemma_intern_all_prefix(table, declared_names(fields), after.len() as int);
}

/// The producer side of the collector. It owns the name registry.
pub struct AgentTracingLayer {
    names: NameRegistry,
}

impl View for AgentTracingLayer {
    type V = Seq<Seq<char>>;

    /// The interned names, in id order.
    closed spec fn view(&self) -> Seq<Seq<char>> {
        self.names@
    }
}

impl AgentTracingLayer {
    /// The registry is well formed.
    pub closed spec fn wf(&self) -> bool {
        self.names.wf()
    }

    /// A layer with an empty name registry.
    pub fn new() -> (layer: AgentTracingLayer)
        ensures
            layer.wf(),
            layer@ == Seq::<Seq<char>>::empty(),
    {
        AgentTracingLayer { names: NameRegistry::new() }
    }

    /// The name table, indexed by id.
    pub fn name_by_id(&self) -> (names: &Vec<String>)
        ensures
            names_of(names@) == self@,
    {
        self.names.names()
    }

    /// A span was created with these string-valued attributes: each declared
    /// name is interned, and the span carries the id of the last one. A span
    /// that declares no name carries no id. The registry must have an id
    /// left for each name that is new to it.
    pub fn on_new_span(&mut self, fields: &[StrField]) -> (extensions: SpanExtensions)
        requires
            old(self).wf(),
            intern_all(old(self)@, declared_names(fields@)).len() <= u32::MAX + 1,
        ensures
            final(self).wf(),
            final(self)@ == intern_all(old(self)@, declared_names(fields@)),
            extensions.started_at is None,
            extensions.name_id == (if declared_names(fields@).len() == 0 {
                None
            } else {
                Some(final(self)@.index_of(declared_names(fields@).last()) as u32)
            }),
    {
        let mut visitor = NameVisitor { field: None };
        let mut i: usize = 0;
        while i < fields.len()
            invariant
                i <= fields.len(),
                self.names.wf(),
                self.names@ == intern_all(old(self)@, declared_names(fields@.take(i as int))),
                visitor.field == (if declared_names(fields@.take(i as int)).len() == 0 {
                    None
                } else {
                    Some(self.names@.index_of(declared_names(fields@.take(i as int)).last()) as u32)
                }),
                intern_all(old(self)@, declared_names(fields@)).len() <= u32::MAX + 1,
            decreases fields.len() - i,
        {
            proof {
                lemma_on_new_span_step(old(self)@, fields@, i as int);
            }
            visitor.record_str(&mut self.names, fields[i].name, fields[i].value.as_str());
            i += 1;
        }
        assert(fields@.take(i as int) =~= fields@);
        SpanExtensions { name_id: visitor.field, started_at: None }
    }

    /// A span was entered at `now`: the first activation is recorded, and a
    /// later one changes nothing.
    pub fn on_enter(extensions: &mut SpanExtensions, now: Timestamp)
        ensures
            final(extensions).name_id == old(extensions).name_id,
            final(extensions).started_at == Some(
                match old(extensions).started_at {
                    Some(first) => first,
                    None => now,
                },
            ),
    {
        if extensions.started_at.is_none() {
            extensions.started_at = Some(now);
        }
    }

    /// A span was exited at `now`: the message to send to the span
    /// processor, or nothing for a span that was never entered or declared
    /// no name.
    pub fn on_exit(
        extensions: &SpanExtensions,
        span_id: u64,
        parent: Option<u64>,
        scope: &'static str,
        now: Timestamp,
    ) -> (msg: Option<SpanMsg>)
        requires
            extensions.wf(),
            now.wf(),
        ensures
            msg == completed_span(*extensions, span_id, parent, scope, now),
            msg is None <==> extensions.started_at is None || extensions.name_id is None,
            msg matches Some(sent) ==> sent.duration.wf(),
    {
        let started_at = if let Some(started_at) = extensions.started_at {
            started_at
        } else {
            return None;
        };
        let name_id = if let Some(name_id) = extensions.name_id {
            name_id
        } else {
            return None;
        };
        let parent_id = match parent {
            Some(id) => id,
            None => 0,
        };
        let duration = now.duration_since(&started_at);
        Some(SpanMsg { span_id, parent_id, name_id, scope, duration })
    }
}

} // verus!
