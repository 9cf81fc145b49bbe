//! Dense references of physical input configuration.

use vstd::prelude::*;

use super::append::{shift, shifted, shifts};
use super::doc::{
    AnalogMappingDoc, CreationError, GraphError, InputBindingError, InputConfigurationDoc,
    NumericParameterDoc,
};
use super::rows::{resolve_part, resolved_part, row_of};
use crate::drive::DriveKey;
use crate::graph::ConstructionGraph;
use crate::ids::{DriveLinkId, PartId};
use crate::parts::{AnalogMapping, InputConfiguration, NumericParameter};

verus! {

/// The row of a numeric setting.
pub open spec fn numeric_doc_of(
    target: NumericParameter,
    parts: Seq<PartId>,
    drives: Seq<DriveLinkId>,
) -> NumericParameterDoc {
    match target {
        NumericParameter::Drive { link, parameter } => NumericParameterDoc::Drive {
            link: row_of(drives, link),
            parameter,
        },
        NumericParameter::Gear { controller, kind, parameter } => NumericParameterDoc::Gear {
            controller: row_of(parts, controller),
            kind,
            parameter,
        },
    }
}

/// Whether a numeric setting names listed rows.
pub open spec fn numeric_listed(
    target: NumericParameter,
    parts: Seq<PartId>,
    drives: Seq<DriveLinkId>,
) -> bool {
    match target {
        NumericParameter::Drive { link, .. } => drives.contains(link),
        NumericParameter::Gear { controller, .. } => parts.contains(controller),
    }
}

/// The row of a dial mapping.
pub open spec fn mapping_doc_of(
    mapping: AnalogMapping,
    parts: Seq<PartId>,
    drives: Seq<DriveLinkId>,
) -> AnalogMappingDoc {
    AnalogMappingDoc {
        target: numeric_doc_of(mapping.target, parts, drives),
        range: mapping.range,
    }
}

/// Whether a row describes the configuration of an input.
pub open spec fn describes_input(
    input: PartId,
    configuration: InputConfiguration,
    parts: Seq<PartId>,
    drives: Seq<DriveLinkId>,
    doc: InputConfigurationDoc,
) -> bool {
    &&& doc.input == row_of(parts, input)
    &&& doc.name@ == configuration.name@
    &&& doc.controller == match configuration.controller {
        Some(controller) => Some(row_of(parts, controller)),
        None => None,
    }
    &&& doc.button_mode == configuration.button_mode
    &&& doc.key == match configuration.key {
        Some(key) => Some(key.code() as char),
        None => None,
    }
    &&& doc.analog@ == configuration.analog@.map_values(
        |mapping: AnalogMapping| mapping_doc_of(mapping, parts, drives),
    )
}

/// Whether a configuration names listed rows.
pub open spec fn input_listed(
    configuration: InputConfiguration,
    parts: Seq<PartId>,
    drives: Seq<DriveLinkId>,
) -> bool {
    &&& configuration.controller is Some ==> parts.contains(configuration.controller->0)
    &&& forall|i: int|
        #![trigger configuration.analog@[i]]
        0 <= i < configuration.analog@.len() ==> numeric_listed(
            configuration.analog@[i].target,
            parts,
            drives,
        )
}

impl ConstructionGraph {
    /// Whether inputs name live rows.
    pub open spec fn inputs_live(&self) -> bool {
        let parts = self.parts.rows.keys@;
        let drives = self.drive_links.rows.keys@;
        &&& parts.len() <= u32::MAX
        &&& drives.len() <= u32::MAX
        &&& forall|i: int|
            #![trigger self.inputs.keys@[i]]
            0 <= i < self.inputs.keys@.len() ==> parts.contains(self.inputs.keys@[i])
        &&& forall|i: int|
            #![trigger self.inputs.values@[i]]
            0 <= i < self.inputs.values@.len() ==> input_listed(
                self.inputs.values@[i],
                parts,
                drives,
            )
    }

    /// The position of a live part.
    pub(crate) fn part_row(&self, part: PartId) -> (row: u32)
        requires
            self.wf(),
            self.parts.rows.keys@.contains(part),
            self.parts.rows.keys@.len() <= u32::MAX,
        ensures
            row == row_of(self.parts.rows.keys@, part),
    {
        match self.parts.rows.index_of(part) {
            Some(at) => at as u32,
            None => 0,
        }
    }

    /// The row of a dial mapping.
    fn mapping_doc(&self, mapping: AnalogMapping) -> (doc: AnalogMappingDoc)
        requires
            self.wf(),
            self.parts.rows.keys@.len() <= u32::MAX,
            self.drive_links.rows.keys@.len() <= u32::MAX,
            numeric_listed(mapping.target, self.parts.rows.keys@, self.drive_links.rows.keys@),
        ensures
            doc == mapping_doc_of(mapping, self.parts.rows.keys@, self.drive_links.rows.keys@),
    {
        let target: NumericParameterDoc = match mapping.target {
            NumericParameter::Drive { link, parameter } => NumericParameterDoc::Drive {
                link: match self.drive_links.rows.index_of(link) {
                    Some(at) => at as u32,
                    None => 0,
                },
                parameter,
            },
            NumericParameter::Gear { controller, kind, parameter } => NumericParameterDoc::Gear {
                controller: self.part_row(controller),
                kind,
                parameter,
            },
        };
        AnalogMappingDoc { target, range: mapping.range }
    }

    /// Rows of every configured input, in part order.
    pub fn input_docs(&self) -> (docs: Vec<InputConfigurationDoc>)
        requires
            self.wf(),
            self.inputs_live(),
        ensures
            docs@.len() == self.inputs.keys@.len(),
            forall|i: int|
                #![trigger docs@[i]]
                0 <= i < docs@.len() ==> describes_input(
                    self.inputs.keys@[i],
                    self.inputs.values@[i],
                    self.parts.rows.keys@,
                    self.drive_links.rows.keys@,
                    docs@[i],
                ),
    {
        let mut docs: Vec<InputConfigurationDoc> = Vec::new();
        let mut i: usize = 0;
        while i < self.inputs.keys.len()
            invariant
                self.wf(),
                self.inputs_live(),
                i <= self.inputs.keys@.len(),
                docs@.len() == i,
                forall|k: int|
                    #![trigger docs@[k]]
                    0 <= k < i ==> describes_input(
                        self.inputs.keys@[k],
                        self.inputs.values@[k],
                        self.parts.rows.keys@,
                        self.drive_links.rows.keys@,
                        docs@[k],
                    ),
            decreases self.inputs.keys@.len() - i,
        {
            let id: PartId = self.inputs.keys[i];
            let configuration: &InputConfiguration = &self.inputs.values[i];
            assert(input_listed(
                self.inputs.values@[i as int],
                self.parts.rows.keys@,
                self.drive_links.rows.keys@,
            ));
            let controller: Option<u32> = match configuration.controller {
                Some(controller) => Some(self.part_row(controller)),
                None => None,
            };
            let key: Option<char> = match configuration.key {
                Some(key) => Some(key.symbol()),
                None => None,
            };
            let mut analog: Vec<AnalogMappingDoc> = Vec::new();
            let mut k: usize = 0;
            while k < configuration.analog.len()
                invariant
                    self.wf(),
                    self.parts.rows.keys@.len() <= u32::MAX,
                    self.drive_links.rows.keys@.len() <= u32::MAX,
                    input_listed(
                        *configuration,
                        self.parts.rows.keys@,
                        self.drive_links.rows.keys@,
                    ),
                    k <= configuration.analog@.len(),
                    analog@.len() == k,
                    forall|j: int|
                        #![trigger analog@[j]]
                        0 <= j < k ==> analog@[j] == mapping_doc_of(
                            configuration.analog@[j],
                            self.parts.rows.keys@,
                            self.drive_links.rows.keys@,
                        ),
                decreases configuration.analog@.len() - k,
            {
                analog.push(self.mapping_doc(configuration.analog[k]));
                k += 1;
            }
            assert(analog@ =~= configuration.analog@.map_values(
                |mapping: AnalogMapping|
                    mapping_doc_of(
                        mapping,
                        self.parts.rows.keys@,
                        self.drive_links.rows.keys@,
                    ),
            ));
            docs.push(
                InputConfigurationDoc {
                    input: self.part_row(id),
                    name: configuration.name.clone(),
                    controller,
                    button_mode: configuration.button_mode,
                    key,
                    analog,
                },
            );
            i += 1;
        }
        docs
    }
}

/// The numeric setting of a row.
pub open spec fn resolved_numeric(
    doc: NumericParameterDoc,
    parts: Seq<PartId>,
    drives: Seq<DriveLinkId>,
) -> Result<NumericParameter, CreationError> {
    match doc {
        NumericParameterDoc::Drive { link, parameter } => if link < drives.len() {
            Ok(NumericParameter::Drive { link: drives[link as int], parameter })
        } else {
            Err(CreationError::MissingDriveLink(link))
        },
        NumericParameterDoc::Gear { controller, kind, parameter } => match resolved_part(
            controller,
            parts,
        ) {
            Ok(controller) => Ok(NumericParameter::Gear { controller, kind, parameter }),
            Err(error) => Err(error),
        },
    }
}

/// The first fault among the first `count` mappings.
pub open spec fn first_mapping_fault(
    docs: Seq<AnalogMappingDoc>,
    parts: Seq<PartId>,
    drives: Seq<DriveLinkId>,
    count: int,
) -> Option<CreationError>
    decreases count,
{
    if count <= 0 {
        None
    } else {
        match first_mapping_fault(docs, parts, drives, count - 1) {
            Some(error) => Some(error),
            None => match resolved_numeric(docs[count - 1].target, parts, drives) {
                Ok(_) => None,
                Err(error) => Some(error),
            },
        }
    }
}

/// Whether an earlier row configures the same input.
pub open spec fn input_seen(
    docs: Seq<InputConfigurationDoc>,
    parts: Seq<PartId>,
    input: PartId,
    count: int,
) -> bool {
    exists|j: int|
        0 <= j < count && resolved_part((#[trigger] docs[j]).input, parts) == Ok::<
            PartId,
            CreationError,
        >(input)
}

/// Why row `i` is refused, if it is: its input, a second row for it, its
/// Controller, its key, then its mappings.
pub open spec fn input_doc_fault(
    docs: Seq<InputConfigurationDoc>,
    parts: Seq<PartId>,
    drives: Seq<DriveLinkId>,
    i: int,
) -> Option<CreationError> {
    let doc = docs[i];
    match resolved_part(doc.input, parts) {
        Err(error) => Some(error),
        Ok(input) => if input_seen(docs, parts, input, i) {
            Some(CreationError::Graph(GraphError::InputBinding(InputBindingError::InvalidTarget)))
        } else if doc.controller is Some && resolved_part(doc.controller->0, parts) is Err {
            Some(resolved_part(doc.controller->0, parts)->Err_0)
        } else if doc.key is Some && DriveKey::named(doc.key->0) is None {
            Some(CreationError::InvalidDriveKey(doc.key->0))
        } else {
            first_mapping_fault(doc.analog@, parts, drives, doc.analog@.len() as int)
        },
    }
}

/// The first fault among the first `count` rows.
pub open spec fn first_input_fault(
    docs: Seq<InputConfigurationDoc>,
    parts: Seq<PartId>,
    drives: Seq<DriveLinkId>,
    count: int,
) -> Option<CreationError>
    decreases count,
{
    if count <= 0 {
        None
    } else {
        match first_input_fault(docs, parts, drives, count - 1) {
            Some(error) => Some(error),
            None => input_doc_fault(docs, parts, drives, count - 1),
        }
    }
}

/// Whether a configuration is the one that a row describes.
pub open spec fn input_of_doc(
    doc: InputConfigurationDoc,
    parts: Seq<PartId>,
    drives: Seq<DriveLinkId>,
    configuration: InputConfiguration,
) -> bool {
    &&& configuration.name@ == doc.name@
    &&& configuration.controller == match doc.controller {
        Some(index) => Some(parts[index as int]),
        None => None,
    }
    &&& configuration.button_mode == doc.button_mode
    &&& configuration.key == match doc.key {
        Some(symbol) => DriveKey::named(symbol),
        None => None,
    }
    &&& configuration.analog@.len() == doc.analog@.len()
    &&& forall|i: int|
        #![trigger configuration.analog@[i]]
        0 <= i < doc.analog@.len() ==> configuration.analog@[i].range == doc.analog@[i].range
            && resolved_numeric(doc.analog@[i].target, parts, drives) == Ok::<
            NumericParameter,
            CreationError,
        >(configuration.analog@[i].target)
}

/// The numeric setting of a row.
fn resolve_numeric(
    doc: NumericParameterDoc,
    parts: &Vec<PartId>,
    drives: &Vec<DriveLinkId>,
) -> (target: Result<NumericParameter, CreationError>)
    ensures
        target == resolved_numeric(doc, parts@, drives@),
{
    match doc {
        NumericParameterDoc::Drive { link, parameter } => if (link as usize) < drives.len() {
            Ok(NumericParameter::Drive { link: drives[link as usize], parameter })
        } else {
            Err(CreationError::MissingDriveLink(link))
        },
        NumericParameterDoc::Gear { controller, kind, parameter } => match resolve_part(
            controller,
            parts,
        ) {
            Ok(controller) => Ok(NumericParameter::Gear { controller, kind, parameter }),
            Err(error) => Err(error),
        },
    }
}

/// Whether an earlier row configures the same input.
fn find_input(
    docs: &Vec<InputConfigurationDoc>,
    parts: &Vec<PartId>,
    input: PartId,
    count: usize,
) -> (seen: bool)
    requires
        count <= docs@.len(),
    ensures
        seen == input_seen(docs@, parts@, input, count as int),
{
    let mut j: usize = 0;
    while j < count
        invariant
            j <= count <= docs@.len(),
            forall|k: int|
                #![trigger docs@[k]]
                0 <= k < j ==> resolved_part(docs@[k].input, parts@) != Ok::<PartId, CreationError>(
                    input,
                ),
        decreases count - j,
    {
        if let Ok(other) = resolve_part(docs[j].input, parts) {
            if other == input {
                assert(resolved_part(docs@[j as int].input, parts@) == Ok::<PartId, CreationError>(
                    input,
                ));
                return true;
            }
        }
        j += 1;
    }
    false
}

/// The dial mappings of a row.
fn resolve_mappings(
    docs: &Vec<AnalogMappingDoc>,
    parts: &Vec<PartId>,
    drives: &Vec<DriveLinkId>,
) -> (mappings: Result<Vec<AnalogMapping>, CreationError>)
    ensures
        match first_mapping_fault(docs@, parts@, drives@, docs@.len() as int) {
            Some(error) => mappings == Err::<Vec<AnalogMapping>, CreationError>(error),
            None => mappings is Ok && mappings->Ok_0@.len() == docs@.len() && forall|i: int|
                #![trigger mappings->Ok_0@[i]]
                0 <= i < docs@.len() ==> mappings->Ok_0@[i].range == docs@[i].range
                    && resolved_numeric(docs@[i].target, parts@, drives@) == Ok::<
                    NumericParameter,
                    CreationError,
                >(mappings->Ok_0@[i].target),
        },
{
    let mut mappings: Vec<AnalogMapping> = Vec::new();
    let mut i: usize = 0;
    while i < docs.len()
        invariant
            i <= docs@.len(),
            mappings@.len() == i,
            first_mapping_fault(docs@, parts@, drives@, i as int) is None,
            forall|k: int|
                #![trigger mappings@[k]]
                0 <= k < i ==> mappings@[k].range == docs@[k].range && resolved_numeric(
                    docs@[k].target,
                    parts@,
                    drives@,
                ) == Ok::<NumericParameter, CreationError>(mappings@[k].target),
        decreases docs@.len() - i,
    {
        match resolve_numeric(docs[i].target, parts, drives) {
            Ok(target) => {
                mappings.push(AnalogMapping { target, range: docs[i].range });
            },
            Err(error) => {
                proof {
                    lemma_mapping_fault_stays(
                        docs@,
                        parts@,
                        drives@,
                        i + 1,
                        docs@.len() as int,
                    );
                }
                return Err(error);
            },
        }
        i += 1;
    }
    Ok(mappings)
}

/// The first fault stays the first when more mappings are looked at.
proof fn lemma_mapping_fault_stays(
    docs: Seq<AnalogMappingDoc>,
    parts: Seq<PartId>,
    drives: Seq<DriveLinkId>,
    i: int,
    n: int,
)
    requires
        0 <= i <= n,
        first_mapping_fault(docs, parts, drives, i) is Some,
    ensures
        first_mapping_fault(docs, parts, drives, n) == first_mapping_fault(docs, parts, drives, i),
    decreases n - i,
{
    if i < n {
        lemma_mapping_fault_stays(docs, parts, drives, i + 1, n);
    }
}

/// The first fault stays the first when more rows are looked at.
proof fn lemma_input_fault_stays(
    docs: Seq<InputConfigurationDoc>,
    parts: Seq<PartId>,
    drives: Seq<DriveLinkId>,
    i: int,
    n: int,
)
    requires
        0 <= i <= n,
        first_input_fault(docs, parts, drives, i) is Some,
    ensures
        first_input_fault(docs, parts, drives, n) == first_input_fault(docs, parts, drives, i),
    decreases n - i,
{
    if i < n {
        lemma_input_fault_stays(docs, parts, drives, i + 1, n);
    }
}

/// The input and configuration of row `i`.
fn resolve_input(
    docs: &Vec<InputConfigurationDoc>,
    parts: &Vec<PartId>,
    drives: &Vec<DriveLinkId>,
    i: usize,
) -> (resolved: Result<(PartId, InputConfiguration), CreationError>)
    requires
        i < docs@.len(),
    ensures
        match input_doc_fault(docs@, parts@, drives@, i as int) {
            Some(error) => resolved == Err::<(PartId, InputConfiguration), CreationError>(error),
            None => resolved matches Ok((input, configuration)) && resolved_part(
                docs@[i as int].input,
                parts@,
            ) == Ok::<PartId, CreationError>(input) && input_of_doc(
                docs@[i as int],
                parts@,
                drives@,
                configuration,
            ),
        },
{
    let doc: &InputConfigurationDoc = &docs[i];
    let input: PartId = match resolve_part(doc.input, parts) {
        Ok(input) => input,
        Err(error) => {
            return Err(error);
        },
    };
    if find_input(docs, parts, input, i) {
        return Err(
            CreationError::Graph(GraphError::InputBinding(InputBindingError::InvalidTarget)),
        );
    }
    let controller: Option<PartId> = match doc.controller {
        Some(index) => match resolve_part(index, parts) {
            Ok(controller) => Some(controller),
            Err(error) => {
                return Err(error);
            },
        },
        None => None,
    };
    let key: Option<DriveKey> = match doc.key {
        Some(symbol) => match DriveKey::new(symbol) {
            Some(key) => Some(key),
            None => {
                return Err(CreationError::InvalidDriveKey(symbol));
            },
        },
        None => None,
    };
    match resolve_mappings(&doc.analog, parts, drives) {
        Ok(analog) => Ok(
            (
                input,
                InputConfiguration {
                    name: doc.name.clone(),
                    controller,
                    button_mode: doc.button_mode,
                    key,
                    analog,
                },
            ),
        ),
        Err(error) => Err(error),
    }
}

/// Whether row `row` is refused, and none before it.
pub open spec fn first_refused(
    docs: Seq<InputConfigurationDoc>,
    parts: Seq<PartId>,
    drives: Seq<DriveLinkId>,
    row: int,
) -> bool {
    &&& 0 <= row < docs.len()
    &&& first_input_fault(docs, parts, drives, row) is None
    &&& input_doc_fault(docs, parts, drives, row) is Some
}

impl ConstructionGraph {
    /// Whether inputs hold the first `count` rows, and whatever they held beside.
    pub open spec fn inputs_applied(
        &self,
        before: Map<PartId, InputConfiguration>,
        docs: Seq<InputConfigurationDoc>,
        parts: Seq<PartId>,
        count: int,
    ) -> bool {
        &&& forall|i: int|
            #![trigger docs[i]]
            0 <= i < count ==> {
                let input = parts[docs[i].input as int];
                &&& docs[i].input < parts.len()
                &&& self.inputs@.dom().contains(input)
                &&& input_of_doc(docs[i], parts, self.drive_links.rows.keys@, self.inputs@[input])
            }
        &&& forall|part: PartId|
            #![trigger self.inputs@.dom().contains(part)]
            !input_seen(docs, parts, part, count) ==> (self.inputs@.dom().contains(part)
                <==> before.dom().contains(part)) && (before.dom().contains(part)
                ==> self.inputs@[part] == before[part])
    }

    /// Configures the inputs that rows describe, up to the first row that is refused.
    pub fn apply_input_docs(&mut self, docs: &Vec<InputConfigurationDoc>, parts: &Vec<PartId>) -> (
        done: Result<(), CreationError>)
        requires
            old(self).wf(),
        ensures
            final(self).wf(),
            done == match first_input_fault(
                docs@,
                parts@,
                old(self).drive_links.rows.keys@,
                docs@.len() as int,
            ) {
                Some(error) => Err::<(), CreationError>(error),
                None => Ok(()),
            },
            done is Ok ==> final(self).inputs_applied(
                old(self).inputs@,
                docs@,
                parts@,
                docs@.len() as int,
            ),
            done is Err ==> exists|row: int|
                first_refused(docs@, parts@, old(self).drive_links.rows.keys@, row) && #[trigger]
                    final(self).inputs_applied(old(self).inputs@, docs@, parts@, row),
            *final(self) == (ConstructionGraph { inputs: final(self).inputs, ..*old(self) }),
    {
        let ghost before = *self;
        let ghost drives = self.drive_links.rows.keys@;
        let mut i: usize = 0;
        while i < docs.len()
            invariant
                self.wf(),
                before == *old(self),
                *self == (ConstructionGraph { inputs: self.inputs, ..before }),
                drives == self.drive_links.rows.keys@,
                drives == before.drive_links.rows.keys@,
                i <= docs@.len(),
                first_input_fault(docs@, parts@, drives, i as int) is None,
                self.inputs_applied(before.inputs@, docs@, parts@, i as int),
            decreases docs@.len() - i,
        {
            match resolve_input(docs, parts, &self.drive_links.rows.keys, i) {
                Ok((input, configuration)) => {
                    let ghost held = *self;
                    self.inputs.insert(input, configuration);
                    proof {
                        lemma_input_applied(
                            held,
                            *self,
                            before.inputs@,
                            docs@,
                            parts@,
                            i as int,
                            input,
                            configuration,
                        );
                    }
                },
                Err(error) => {
                    proof {
                        lemma_input_fault_stays(
                            docs@,
                            parts@,
                            drives,
                            i + 1,
                            docs@.len() as int,
                        );
                        assert(first_refused(docs@, parts@, drives, i as int));
                        assert(self.inputs_applied(before.inputs@, docs@, parts@, i as int));
                    }
                    return Err(error);
                },
            }
            i += 1;
        }
        Ok(())
    }
}

/// Configuring one more input keeps what earlier rows configured.
proof fn lemma_input_applied(
    held: ConstructionGraph,
    after: ConstructionGraph,
    before: Map<PartId, InputConfiguration>,
    docs: Seq<InputConfigurationDoc>,
    parts: Seq<PartId>,
    i: int,
    input: PartId,
    configuration: InputConfiguration,
)
    requires
        0 <= i < docs.len(),
        held.inputs_applied(before, docs, parts, i),
        after.drive_links == held.drive_links,
        after.inputs@ == held.inputs@.insert(input, configuration),
        resolved_part(docs[i].input, parts) == Ok::<PartId, CreationError>(input),
        !input_seen(docs, parts, input, i),
        input_of_doc(docs[i], parts, held.drive_links.rows.keys@, configuration),
    ensures
        after.inputs_applied(before, docs, parts, i + 1),
{
    assert forall|k: int| #![trigger docs[k]] 0 <= k < i + 1 implies ({
        let other = parts[docs[k].input as int];
        &&& docs[k].input < parts.len()
        &&& after.inputs@.dom().contains(other)
        &&& input_of_doc(docs[k], parts, after.drive_links.rows.keys@, after.inputs@[other])
    }) by {
        if k < i {
            let other = parts[docs[k].input as int];
            assert(resolved_part(docs[k].input, parts) == Ok::<PartId, CreationError>(other));
            if other == input {
                assert(input_seen(docs, parts, input, i));
            }
        }
    }
    assert forall|part: PartId| #![trigger after.inputs@.dom().contains(part)]
        !input_seen(docs, parts, part, i + 1) implies (after.inputs@.dom().contains(part)
        <==> before.dom().contains(part)) && (before.dom().contains(part) ==> after.inputs@[part]
        == before[part]) by {
        if part == input {
            assert(resolved_part(docs[i].input, parts) == Ok::<PartId, CreationError>(input));
            assert(input_seen(docs, parts, input, i + 1));
        }
        if input_seen(docs, parts, part, i) {
            let j = choose|j: int|
                0 <= j < i && resolved_part((#[trigger] docs[j]).input, parts) == Ok::<
                    PartId,
                    CreationError,
                >(part);
            assert(resolved_part(docs[j].input, parts) == Ok::<PartId, CreationError>(part));
            assert(input_seen(docs, parts, part, i + 1));
        }
        assert(held.inputs@.dom().contains(part) <==> before.dom().contains(part));
    }
}

/// Whether a mapping's indices stay in range.
pub open spec fn mapping_shifts(doc: AnalogMappingDoc, parts: u32, drives: u32) -> bool {
    match doc.target {
        NumericParameterDoc::Drive { link, .. } => shifts(link, drives),
        NumericParameterDoc::Gear { controller, .. } => shifts(controller, parts),
    }
}

/// A mapping behind `parts` parts and `drives` wires.
pub open spec fn shifted_mapping(doc: AnalogMappingDoc, parts: u32, drives: u32) -> AnalogMappingDoc {
    AnalogMappingDoc {
        target: match doc.target {
            NumericParameterDoc::Drive { link, parameter } => NumericParameterDoc::Drive {
                link: shifted(link, drives),
                parameter,
            },
            NumericParameterDoc::Gear { controller, kind, parameter } => NumericParameterDoc::Gear {
                controller: shifted(controller, parts),
                kind,
                parameter,
            },
        },
        range: doc.range,
    }
}

/// Whether a row's indices stay in range.
pub open spec fn input_shifts(doc: InputConfigurationDoc, parts: u32, drives: u32) -> bool {
    &&& shifts(doc.input, parts)
    &&& doc.controller is Some ==> shifts(doc.controller->0, parts)
    &&& forall|i: int|
        0 <= i < doc.analog@.len() ==> mapping_shifts(#[trigger] doc.analog@[i], parts, drives)
}

/// Whether a row is another behind `parts` parts and `drives` wires.
pub open spec fn input_shifted(
    doc: InputConfigurationDoc,
    parts: u32,
    drives: u32,
    moved: InputConfigurationDoc,
) -> bool {
    &&& moved.input == shifted(doc.input, parts)
    &&& moved.name == doc.name
    &&& moved.controller == match doc.controller {
        Some(index) => Some(shifted(index, parts)),
        None => None,
    }
    &&& moved.button_mode == doc.button_mode
    &&& moved.key == doc.key
    &&& moved.analog@ == doc.analog@.map_values(
        |mapping: AnalogMappingDoc| shifted_mapping(mapping, parts, drives),
    )
}

/// Moves one row's indices.
fn shift_input(doc: InputConfigurationDoc, parts: u32, drives: u32) -> (moved: Result<
    InputConfigurationDoc,
    CreationError,
>)
    ensures
        moved is Ok <==> input_shifts(doc, parts, drives),
        moved is Ok ==> input_shifted(doc, parts, drives, moved->Ok_0),
        moved is Err ==> moved->Err_0 == CreationError::TooManyRows,
{
    let input: u32 = match shift(doc.input, parts) {
        Ok(input) => input,
        Err(error) => {
            return Err(error);
        },
    };
    let controller: Option<u32> = match doc.controller {
        Some(index) => match shift(index, parts) {
            Ok(index) => Some(index),
            Err(error) => {
                return Err(error);
            },
        },
        None => None,
    };
    let mut analog: Vec<AnalogMappingDoc> = Vec::new();
    let mut i: usize = 0;
    while i < doc.analog.len()
        invariant
            i <= doc.analog@.len(),
            analog@.len() == i,
            forall|k: int|
                #![trigger doc.analog@[k]]
                0 <= k < i ==> mapping_shifts(doc.analog@[k], parts, drives),
            forall|k: int|
                #![trigger analog@[k]]
                0 <= k < i ==> analog@[k] == shifted_mapping(doc.analog@[k], parts, drives),
        decreases doc.analog@.len() - i,
    {
        let mapping: AnalogMappingDoc = doc.analog[i];
        let target: NumericParameterDoc = match mapping.target {
            NumericParameterDoc::Drive { link, parameter } => match shift(link, drives) {
                Ok(link) => NumericParameterDoc::Drive { link, parameter },
                Err(error) => {
                    assert(!mapping_shifts(doc.analog@[i as int], parts, drives));
                    return Err(error);
                },
            },
            NumericParameterDoc::Gear { controller, kind, parameter } => match shift(
                controller,
                parts,
            ) {
                Ok(controller) => NumericParameterDoc::Gear { controller, kind, parameter },
                Err(error) => {
                    assert(!mapping_shifts(doc.analog@[i as int], parts, drives));
                    return Err(error);
                },
            },
        };
        analog.push(AnalogMappingDoc { target, range: mapping.range });
        i += 1;
    }
    assert(analog@ =~= doc.analog@.map_values(
        |mapping: AnalogMappingDoc| shifted_mapping(mapping, parts, drives),
    ));
    Ok(
        InputConfigurationDoc {
            input,
            name: doc.name,
            controller,
            button_mode: doc.button_mode,
            key: doc.key,
            analog,
        },
    )
}

/// Moves every row's indices behind `parts` parts and `drives` wires.
pub fn offset_input_docs(docs: Vec<InputConfigurationDoc>, parts: u32, drives: u32) -> (moved: Result<
    Vec<InputConfigurationDoc>,
    CreationError,
>)
    ensures
        moved is Ok <==> forall|i: int|
            0 <= i < docs@.len() ==> input_shifts(#[trigger] docs@[i], parts, drives),
        moved is Ok ==> moved->Ok_0@.len() == docs@.len() && forall|i: int|
            #![trigger moved->Ok_0@[i]]
            0 <= i < docs@.len() ==> input_shifted(docs@[i], parts, drives, moved->Ok_0@[i]),
        moved is Err ==> moved->Err_0 == CreationError::TooManyRows,
{
    let mut moved: Vec<InputConfigurationDoc> = Vec::new();
    for doc in iter: docs
        invariant
            iter.seq() == docs@,
            moved@.len() == iter.index(),
            forall|k: int|
                #![trigger docs@[k]]
                0 <= k < moved@.len() ==> input_shifts(docs@[k], parts, drives),
            forall|k: int|
                #![trigger moved@[k]]
                0 <= k < moved@.len() ==> input_shifted(docs@[k], parts, drives, moved@[k]),
    {
        match shift_input(doc, parts, drives) {
            Ok(row) => {
                moved.push(row);
            },
            Err(error) => {
                assert(!input_shifts(docs@[moved@.len() as int], parts, drives));
                return Err(error);
            },
        }
    }
    Ok(moved)
}

/// A saved input comes back with the configuration it had.
pub proof fn inputs_survive_saving(
    input: PartId,
    configuration: InputConfiguration,
    parts: Seq<PartId>,
    drives: Seq<DriveLinkId>,
    doc: InputConfigurationDoc,
    loaded: InputConfiguration,
)
    requires
        parts.len() <= u32::MAX,
        drives.len() <= u32::MAX,
        parts.contains(input),
        input_listed(configuration, parts, drives),
        configuration.key is Some ==> configuration.key->0.wf(),
        describes_input(input, configuration, parts, drives, doc),
        input_of_doc(doc, parts, drives, loaded),
    ensures
        resolved_part(doc.input, parts) == Ok::<PartId, CreationError>(input),
        loaded.name@ == configuration.name@,
        loaded.controller == configuration.controller,
        loaded.button_mode == configuration.button_mode,
        loaded.key == configuration.key,
        loaded.analog@ == configuration.analog@,
{
    assert(parts[parts.index_of(input)] == input);
    if configuration.controller is Some {
        let controller = configuration.controller->0;
        assert(parts[parts.index_of(controller)] == controller);
    }
    if configuration.key is Some {
        configuration.key->0.lemma_named();
    }
    assert forall|i: int| 0 <= i < configuration.analog@.len() implies loaded.analog@[i]
        == configuration.analog@[i] by {
        let mapping = configuration.analog@[i];
        assert(doc.analog@[i] == mapping_doc_of(mapping, parts, drives));
        match mapping.target {
            NumericParameter::Drive { link, .. } => {
                assert(drives[drives.index_of(link)] == link);
            },
            NumericParameter::Gear { controller, .. } => {
                assert(parts[parts.index_of(controller)] == controller);
            },
        }
        assert(loaded.analog@[i].range == mapping.range);
    }
    assert(loaded.analog@ =~= configuration.analog@);
}

/// A numeric setting comes back on the wire or the Controller that its row
/// names, and is refused for an index that names none.
pub proof fn settings_come_back_where_they_were(
    doc: NumericParameterDoc,
    parts: Seq<PartId>,
    drives: Seq<DriveLinkId>,
)
    ensures
        match doc {
            NumericParameterDoc::Drive { link, parameter } => {
                &&& link < drives.len() ==> resolved_numeric(doc, parts, drives) is Ok
                    && resolved_numeric(doc, parts, drives)->Ok_0 == (NumericParameter::Drive {
                    link: drives[link as int],
                    parameter,
                })
                &&& link >= drives.len() ==> resolved_numeric(doc, parts, drives) is Err
                    && resolved_numeric(doc, parts, drives)->Err_0
                    == CreationError::MissingDriveLink(link)
            },
            NumericParameterDoc::Gear { controller, kind, parameter } => {
                &&& controller < parts.len() ==> resolved_numeric(doc, parts, drives) is Ok
                    && resolved_numeric(doc, parts, drives)->Ok_0 == (NumericParameter::Gear {
                    controller: parts[controller as int],
                    kind,
                    parameter,
                })
                &&& controller >= parts.len() ==> resolved_numeric(doc, parts, drives) is Err
                    && resolved_numeric(doc, parts, drives)->Err_0 == CreationError::MissingPart(
                    controller,
                )
            },
        },
{
}

/// An input's row is refused for a missing input first, then for a second row of
/// one input, then for a missing Controller, then for what names no key.
pub proof fn inputs_are_refused_in_order(
    docs: Seq<InputConfigurationDoc>,
    parts: Seq<PartId>,
    drives: Seq<DriveLinkId>,
    i: int,
    j: int,
)
    requires
        0 <= i < docs.len(),
    ensures
        ({
            let doc = docs[i];
            let fault = input_doc_fault(docs, parts, drives, i);
            let again = 0 <= j < i && docs[j].input < parts.len() && doc.input < parts.len()
                && parts[docs[j].input as int] == parts[doc.input as int];
            &&& doc.input >= parts.len() ==> fault == Some(CreationError::MissingPart(doc.input))
            &&& again ==> fault == Some(
                CreationError::Graph(GraphError::InputBinding(InputBindingError::InvalidTarget)),
            )
            &&& fault is None ==> doc.input < parts.len() && !again && (doc.controller is Some
                ==> doc.controller->0 < parts.len()) && (doc.key is Some ==> DriveKey::named(
                doc.key->0,
            ) is Some)
            &&& i == 0 && doc.input < parts.len() && doc.controller is Some && doc.controller->0
                >= parts.len() ==> fault == Some(CreationError::MissingPart(doc.controller->0))
            &&& i == 0 && doc.input < parts.len() && doc.controller is None && doc.key is Some
                && DriveKey::named(doc.key->0) is None ==> fault == Some(
                CreationError::InvalidDriveKey(doc.key->0),
            )
        }),
{
    let doc = docs[i];
    if 0 <= j < i && docs[j].input < parts.len() && doc.input < parts.len()
        && parts[docs[j].input as int] == parts[doc.input as int] {
        assert(resolved_part(docs[j].input, parts) == Ok::<PartId, CreationError>(
            parts[doc.input as int],
        ));
        assert(input_seen(docs, parts, parts[doc.input as int], i));
    }
}

/// The earliest refused row is told, of inputs and of their mappings.
pub proof fn the_earliest_refused_input_is_told(
    docs: Seq<InputConfigurationDoc>,
    mappings: Seq<AnalogMappingDoc>,
    parts: Seq<PartId>,
    drives: Seq<DriveLinkId>,
    count: int,
    i: int,
)
    requires
        0 <= i < count,
    ensures
        first_input_fault(docs, parts, drives, count) is None ==> input_doc_fault(
            docs,
            parts,
            drives,
            i,
        ) is None,
        first_input_fault(docs, parts, drives, i) is None && input_doc_fault(docs, parts, drives, i)
            is Some ==> first_input_fault(docs, parts, drives, count) == input_doc_fault(
            docs,
            parts,
            drives,
            i,
        ),
        first_mapping_fault(mappings, parts, drives, count) is None ==> resolved_numeric(
            mappings[i].target,
            parts,
            drives,
        ) is Ok,
        first_mapping_fault(mappings, parts, drives, i) is None && resolved_numeric(
            mappings[i].target,
            parts,
            drives,
        ) is Err ==> first_mapping_fault(mappings, parts, drives, count) == Some(
            resolved_numeric(mappings[i].target, parts, drives)->Err_0,
        ),
    decreases count,
{
    if i < count - 1 {
        the_earliest_refused_input_is_told(docs, mappings, parts, drives, count - 1, i);
    }
}

/// A moved row names what it named, as many rows further on.
pub proof fn moved_inputs_name_what_they_named(
    doc: InputConfigurationDoc,
    parts: u32,
    drives: u32,
    moved: InputConfigurationDoc,
    k: int,
)
    requires
        input_shifts(doc, parts, drives),
        input_shifted(doc, parts, drives, moved),
    ensures
        moved.input - doc.input == parts,
        moved.controller is Some <==> doc.controller is Some,
        doc.controller is Some ==> moved.controller->0 - doc.controller->0 == parts,
        moved.name == doc.name && moved.button_mode == doc.button_mode && moved.key == doc.key,
        moved.analog@.len() == doc.analog@.len(),
        0 <= k < doc.analog@.len() ==> moved.analog@[k].range == doc.analog@[k].range && match (
            doc.analog@[k].target,
            moved.analog@[k].target,
        ) {
            (
                NumericParameterDoc::Drive { link: a, parameter: p },
                NumericParameterDoc::Drive { link: b, parameter: q },
            ) => b - a == drives && p == q,
            (
                NumericParameterDoc::Gear { controller: a, kind: s, parameter: p },
                NumericParameterDoc::Gear { controller: b, kind: t, parameter: q },
            ) => b - a == parts && s == t && p == q,
            _ => false,
        },
{
    if 0 <= k < doc.analog@.len() {
        let mapping = doc.analog@[k];
        assert(mapping_shifts(mapping, parts, drives));
        assert(moved.analog@[k] == shifted_mapping(mapping, parts, drives));
    }
}

/// Applied rows configure the inputs that they name, and no other input changes.
pub proof fn applied_rows_configure_their_inputs(
    graph: &ConstructionGraph,
    before: Map<PartId, InputConfiguration>,
    docs: Seq<InputConfigurationDoc>,
    parts: Seq<PartId>,
    count: int,
    i: int,
    part: PartId,
)
    requires
        graph.inputs_applied(before, docs, parts, count),
        0 <= i < count <= docs.len(),
    ensures
        ({
            let input = parts[docs[i].input as int];
            &&& graph.inputs@.dom().contains(input)
            &&& graph.inputs@[input].name@ == docs[i].name@
            &&& graph.inputs@[input].button_mode == docs[i].button_mode
            &&& graph.inputs@[input].controller is Some <==> docs[i].controller is Some
            &&& docs[i].controller is Some ==> graph.inputs@[input].controller->0
                == parts[docs[i].controller->0 as int]
            &&& graph.inputs@[input].analog@.len() == docs[i].analog@.len()
        }),
        (forall|j: int|
            #![trigger docs[j]]
            0 <= j < count ==> parts[docs[j].input as int] != part) ==> (
        graph.inputs@.dom().contains(part) <==> before.dom().contains(part)) && (
        before.dom().contains(part) ==> graph.inputs@[part] == before[part]),
{
    let row = docs[i];
    if forall|j: int|
        #![trigger docs[j]]
        0 <= j < count ==> parts[docs[j].input as int] != part {
        if input_seen(docs, parts, part, count) {
            let j = choose|j: int|
                0 <= j < count && resolved_part((#[trigger] docs[j]).input, parts) == Ok::<
                    PartId,
                    CreationError,
                >(part);
            assert(parts[docs[j].input as int] == part);
        }
        assert(graph.inputs@.dom().contains(part) <==> before.dom().contains(part));
    }
}

} // verus!
