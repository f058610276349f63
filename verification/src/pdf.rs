//! The PDF document under construction: its pages, the layers of each page with their
//! content operations, the fonts it uses, and the writing of all of it into the store of
//! numbered objects.
use vstd::prelude::*;
use unicode_normalization::UnicodeNormalization;
use crate::error::{context_error_message, ContextError};
use crate::font::{glyph_index_of, face_parses, face_parsing_error_text, is_font_insertion, units_per_em_of, Font, TtfFontFace};
use crate::timestamp::{pdf_timestamp, to_pdf_timestamp_format, unix_epoch, unix_epoch_timestamp};
use crate::strings::{chars_to_string, decimal, decimal_chars, lemma_decimal_injective, push_chars, push_str, str_chars};
use crate::pdf_object::{
    ascii, ascii_bytes, assoc_get, assoc_set, lemma_assoc_get_at, lemma_assoc_set_get, bytes_less, bytes_lt, has_key, lemma_assoc_set_absent, lemma_bytes_lt_irreflexive,
    lemma_bytes_lt_total, lemma_bytes_lt_transitive, lemma_stored_append, lemma_stored_fresh, name, stored, utf8, utf8_bytes, ContentOperation,
    Dictionary, Obj, ObjectId, ObjectStore, Operand, OperandModel, OperationModel, PdfObject, PdfStream, Real, StreamContent,
    StringFormat, operations_model, operands_model, ContentModel,
};

verus! {

/// A text made of a prefix followed by a number in decimal.
pub fn prefixed_number(prefix: &str, number: usize) -> (s: String)
    ensures
        s@ == prefix@ + decimal(number as nat),
{
    let mut text = str_chars(prefix);
    let digits = decimal_chars(number as u64);
    push_chars(&mut text, &digits);
    chars_to_string(&text)
}

/// The name of the optional content group at an index: `MC` and the index.
pub open spec fn ocg_name(index: nat) -> Seq<char> {
    "MC"@ + decimal(index)
}

/// Named reference to an `XObject`: `X` and its index.
#[derive(Debug, Clone)]
pub struct XObjectReference(String);

impl View for XObjectReference {
    type V = Seq<char>;

    closed spec fn view(&self) -> Seq<char> {
        self.0@
    }
}

impl XObjectReference {
    /// Creates a new reference for an `XObject` from a number.
    pub fn new(index: usize) -> (r: XObjectReference)
        ensures
            r@ == "X"@ + decimal(index as nat),
    {
        XObjectReference(prefixed_number("X", index))
    }
}

/// A named reference to an optional content group: `MC` and its index.
#[derive(Debug, Clone)]
pub struct OcgReference(String);

impl View for OcgReference {
    type V = Seq<char>;

    closed spec fn view(&self) -> Seq<char> {
        self.0@
    }
}

impl OcgReference {
    /// Creates a new OCG reference from an index.
    pub fn new(index: usize) -> (r: OcgReference)
        ensures
            r@ == ocg_name(index as nat),
    {
        OcgReference(prefixed_number("MC", index))
    }

    /// The name of the reference.
    pub fn name(&self) -> (s: &String)
        ensures
            s@ == self@,
    {
        &self.0
    }
}

/// The association between the OCG references and the objects of the layers. The
/// reference of the entry at index `i` is always `MC` and `i`.
#[derive(Debug)]
pub struct OcgLayersMap(Vec<(OcgReference, PdfObject)>);

impl View for OcgLayersMap {
    type V = Seq<(Seq<char>, Obj)>;

    closed spec fn view(&self) -> Seq<(Seq<char>, Obj)> {
        Seq::new(self.0.len() as nat, |i: int| (self.0[i].0@, self.0[i].1.model()))
    }
}

/// The entries of a properties dictionary: `MC` and the index of each object, with the object.
pub open spec fn ocg_entries(objects: Seq<Obj>) -> Seq<(Seq<u8>, Obj)> {
    Seq::new(objects.len(), |i: int| (utf8(ocg_name(i as nat)), objects[i]))
}

/// Distinct indices give distinct names of optional content groups.
pub proof fn lemma_ocg_name_injective(a: nat, b: nat)
    requires
        utf8(ocg_name(a)) == utf8(ocg_name(b)),
    ensures
        a == b,
{
    reveal_strlit("MC");
    vstd::utf8::encode_utf8_decode_utf8(ocg_name(a));
    vstd::utf8::encode_utf8_decode_utf8(ocg_name(b));
    assert(ocg_name(a) == ocg_name(b));
    assert(ocg_name(a).subrange(2, ocg_name(a).len() as int) =~= decimal(a));
    assert(ocg_name(b).subrange(2, ocg_name(b).len() as int) =~= decimal(b));
    lemma_decimal_injective(a, b);
}

/// In a dictionary of optional content groups, the group at each index is found under
/// `MC` and the index.
pub proof fn lemma_ocg_entries_lookup(objects: Seq<Obj>, i: int)
    requires
        0 <= i < objects.len(),
    ensures
        crate::pdf_object::assoc_get(ocg_entries(objects), utf8(ocg_name(i as nat))) == Some(objects[i]),
    decreases objects.len(),
{
    let entries = ocg_entries(objects);
    let last = objects.len() - 1;
    assert(entries.last() == (utf8(ocg_name(last as nat)), objects[last]));
    if i == last {
    } else {
        lemma_ocg_entries_lookup(objects.drop_last(), i);
        assert(entries.drop_last() =~= ocg_entries(objects.drop_last()));
        if utf8(ocg_name(last as nat)) == utf8(ocg_name(i as nat)) {
            lemma_ocg_name_injective(last as nat, i as nat);
        }
    }
}

impl OcgLayersMap {
    /// The reference of each entry is `MC` and the index of the entry.
    pub closed spec fn numbered(&self) -> bool {
        forall|i: int| 0 <= i < self.0.len() ==> (#[trigger] self.0[i]).0@ == ocg_name(i as nat)
    }

    /// The objects of the entries, in order.
    pub closed spec fn objects(&self) -> Seq<Obj> {
        Seq::new(self.0.len() as nat, |i: int| self.0[i].1.model())
    }

    /// An empty map.
    pub fn new() -> (map: OcgLayersMap)
        ensures
            map@ == Seq::<(Seq<char>, Obj)>::empty(),
            map.objects() == Seq::<Obj>::empty(),
            map.numbered(),
    {
        let map = OcgLayersMap(Vec::new());
        assert(map@ =~= Seq::<(Seq<char>, Obj)>::empty());
        assert(map.objects() =~= Seq::<Obj>::empty());
        map
    }

    /// The number of entries.
    pub fn len(&self) -> (n: usize)
        ensures
            n == self.objects().len(),
    {
        self.0.len()
    }

    /// Adds a PDF object to the map for the OCG layers. Returns the reference to the added
    /// object: `MC` and the number of entries before the addition.
    pub fn add_ocg(&mut self, object: PdfObject) -> (r: OcgReference)
        requires
            old(self).numbered(),
        ensures
            final(self).numbered(),
            r@ == ocg_name(old(self).objects().len()),
            final(self).objects() == old(self).objects().push(object.model()),
    {
        let length = self.0.len();
        let ocg_reference = OcgReference::new(length);
        let ghost objects = self.objects();
        let ghost object_model = object.model();
        self.0.push((ocg_reference.clone_reference(), object));
        assert(self.objects() =~= objects.push(object_model));
        assert(self.0[length as int].0@ == ocg_name(length as nat));
        ocg_reference
    }

    /// A copy of the map.
    pub fn duplicate(&self) -> (r: OcgLayersMap)
        requires
            self.numbered(),
        ensures
            r.objects() == self.objects(),
            r.numbered(),
    {
        let mut entries: Vec<(OcgReference, PdfObject)> = Vec::new();
        let mut i: usize = 0;
        while i < self.0.len()
            invariant
                i <= self.0.len(),
                entries@.len() == i,
                forall|j: int| 0 <= j < self.0.len() ==> (#[trigger] self.0[j]).0@ == ocg_name(j as nat),
                forall|j: int| 0 <= j < i ==> (#[trigger] entries@[j]).0@ == ocg_name(j as nat)
                    && entries@[j].1.model() == self.0[j].1.model(),
            decreases self.0.len() - i,
        {
            entries.push((self.0[i].0.clone_reference(), self.0[i].1.duplicate()));
            i = i + 1;
        }
        let r = OcgLayersMap(entries);
        assert(r.objects() =~= self.objects());
        r
    }

    /// The dictionary of the entries: each reference, written in UTF-8, maps to its object.
    /// The entries are set one after the other into an empty dictionary.
    pub fn into_dictionary(self) -> (d: Dictionary)
        requires
            self.numbered(),
        ensures
            d.model() == ocg_entries(self.objects()),
    {
        let ghost objects = self.objects();
        let mut dictionary = Dictionary::new();
        let mut rest = self.0;
        let ghost all = rest@;
        let mut taken: usize = 0;
        assert(rest@ =~= all.skip(0));
        while rest.len() > 0
            invariant
                taken + rest@.len() == all.len(),
                rest@ == all.skip(taken as int),
                objects.len() == all.len(),
                forall|j: int| 0 <= j < all.len() ==> (#[trigger] all[j]).0@ == ocg_name(j as nat),
                forall|j: int| 0 <= j < all.len() ==> #[trigger] objects[j] == all[j].1.model(),
                dictionary.model() == ocg_entries(objects.take(taken as int)),
            decreases rest.len(),
        {
            let entry = rest.remove(0);
            assert(entry == all[taken as int]);
            let key = utf8_bytes(entry.0.0.as_str());
            let ghost before = dictionary.model();
            let ghost value_model = entry.1.model();
            proof {
                assert(!has_key(before, key@)) by {
                    if has_key(before, key@) {
                        let j = choose|j: int| 0 <= j < before.len() && #[trigger] before[j].0 == key@;
                        lemma_ocg_name_injective(j as nat, taken as nat);
                    }
                }
                lemma_assoc_set_absent(before, key@, value_model);
            }
            dictionary.set(key, entry.1);
            assert(ocg_entries(objects.take(taken as int + 1)) =~= before.push((utf8(ocg_name(taken as nat)), value_model)));
            taken = taken + 1;
            assert(rest@ =~= all.skip(taken as int));
        }
        assert(objects.take(taken as int) =~= objects);
        dictionary
    }
}

impl OcgReference {
    /// A copy of the reference.
    pub fn clone_reference(&self) -> (r: OcgReference)
        ensures
            r@ == self@,
    {
        OcgReference(self.0.clone())
    }
}

/// The mathematical value of a layer: its name and its operations.
pub type LayerModel = (Seq<char>, Seq<OperationModel>);

/// One layer of PDF data: its name (which names its optional content group) and the
/// operations of its content stream.
#[derive(Debug)]
pub struct PdfLayer {
    name: String,
    operations: Vec<ContentOperation>,
}

impl View for PdfLayer {
    type V = LayerModel;

    closed spec fn view(&self) -> LayerModel {
        (self.name@, operations_model(self.operations@))
    }
}

/// The views of layers.
pub open spec fn layers_model(layers: Seq<PdfLayer>) -> Seq<LayerModel> {
    Seq::new(layers.len(), |i: int| layers[i]@)
}

/// The operation that begins the marked content of an optional content group.
pub open spec fn begin_marked_content(ocg: Seq<char>) -> OperationModel {
    ("BDC"@, seq![OperandModel::Name(ascii("OC"@)), OperandModel::Name(utf8(ocg))])
}

/// An operation without operands.
pub open spec fn bare_operation(operator: Seq<char>) -> OperationModel {
    (operator, Seq::<OperandModel>::empty())
}

/// The operations of a layer wrapped into the marked content of its optional content group
/// and into a saved graphics state: `BDC` and `q` before, `Q` and `EMC` after.
pub open spec fn wrapped_operations(operations: Seq<OperationModel>, ocg: Seq<char>) -> Seq<OperationModel> {
    seq![begin_marked_content(ocg), bare_operation("q"@)] + operations + seq![bare_operation("Q"@), bare_operation("EMC"@)]
}

/// The content of the stream of a layer: the encoding of its operations.
pub open spec fn layer_stream_content(operations: Seq<OperationModel>) -> ContentModel {
    ContentModel::Layers(seq![operations])
}

impl PdfLayer {
    /// A layer with the given name and no operation.
    pub fn new(name: String) -> (layer: PdfLayer)
        ensures
            layer@ == (name@, Seq::<OperationModel>::empty()),
    {
        let layer = PdfLayer { name, operations: Vec::new() };
        assert(operations_model(layer.operations@) =~= Seq::<OperationModel>::empty());
        layer
    }

    /// The name of the layer.
    pub fn name(&self) -> (s: &String)
        ensures
            s@ == self@.0,
    {
        &self.name
    }

    /// The operations of the layer.
    pub fn operations(&self) -> (ops: &Vec<ContentOperation>)
        ensures
            operations_model(ops@) == self@.1,
    {
        &self.operations
    }

    /// Appends operations to the layer.
    pub fn extend(&mut self, operations: Vec<ContentOperation>)
        ensures
            final(self)@ == (old(self)@.0, old(self)@.1 + operations_model(operations@)),
    {
        let ghost before = operations_model(self.operations@);
        let ghost added = operations_model(operations@);
        let mut operations = operations;
        self.operations.append(&mut operations);
        assert(operations_model(self.operations@) =~= before + added);
    }

    /// Inserts an operation before all others.
    fn prepend(&mut self, operation: ContentOperation)
        ensures
            final(self)@ == (old(self)@.0, seq![operation.model()] + old(self)@.1),
    {
        let ghost before = operations_model(self.operations@);
        let ghost m = operation.model();
        self.operations.insert(0, operation);
        assert(operations_model(self.operations@) =~= seq![m] + before);
    }

    /// Appends one operation.
    fn append_operation(&mut self, operation: ContentOperation)
        ensures
            final(self)@ == (old(self)@.0, old(self)@.1.push(operation.model())),
    {
        let ghost before = operations_model(self.operations@);
        let ghost m = operation.model();
        self.operations.push(operation);
        assert(operations_model(self.operations@) =~= before.push(m));
    }

    /// A copy of the layer.
    pub fn duplicate(&self) -> (r: PdfLayer)
        ensures
            r@ == self@,
    {
        PdfLayer { name: self.name.clone(), operations: crate::pdf_object::duplicate_operations(&self.operations) }
    }

    /// The stream of the layer: its operations, encoded, in a stream that is not to be
    /// compressed.
    pub fn into_stream(self) -> (stream: PdfStream)
        ensures
            stream.dict.model() == Seq::<(Seq<u8>, Obj)>::empty(),
            stream.content.model() == layer_stream_content(self@.1),
            !stream.allows_compression,
    {
        let ghost ops = operations_model(self.operations@);
        let mut layers: Vec<Vec<ContentOperation>> = Vec::new();
        layers.push(self.operations);
        let content = StreamContent::Layers(layers);
        assert(content.model() =~~= layer_stream_content(ops));
        PdfStream { dict: Dictionary::new(), content, allows_compression: false }
    }
}

/// The resources of a page: its optional content groups (the `Properties` of its resource
/// dictionary).
#[derive(Debug)]
pub struct PdfResources {
    ocg_layers: OcgLayersMap,
}

/// The resource dictionary of a page whose resources already hold the objects `existing`
/// and to which the objects of the layers are added: without layers it is empty, else it
/// holds the `Properties` of all the optional content groups.
pub open spec fn resource_entries(existing: Seq<Obj>, layers: Seq<Obj>) -> Seq<(Seq<u8>, Obj)> {
    if layers.len() == 0 {
        Seq::empty()
    } else {
        seq![(ascii("Properties"@), Obj::Dictionary(ocg_entries(existing + layers)))]
    }
}

impl PdfResources {
    /// The objects of the optional content groups that the resources hold.
    pub closed spec fn objects(&self) -> Seq<Obj> {
        self.ocg_layers.objects()
    }

    /// The optional content groups are numbered by their position.
    pub closed spec fn well_formed(&self) -> bool {
        self.ocg_layers.numbered()
    }

    /// Resources without optional content groups.
    pub fn new() -> (r: PdfResources)
        ensures
            r.objects() == Seq::<Obj>::empty(),
            r.well_formed(),
    {
        PdfResources { ocg_layers: OcgLayersMap::new() }
    }

    /// Constructs the resource dictionary for the given layers: each layer is added as an
    /// optional content group to a copy of the resources, and the dictionary of all of
    /// them is set as `Properties`. Returns the dictionary and the references of the
    /// groups of the layers, in order.
    pub fn with_document_and_layers(&self, layers: Vec<PdfObject>) -> (r: (Dictionary, Vec<OcgReference>))
        requires
            self.well_formed(),
        ensures
            r.0.model() == resource_entries(self.objects(), crate::pdf_object::objects_model(layers@)),
            r.1@.len() == layers@.len(),
            forall|i: int| 0 <= i < layers@.len() ==> (#[trigger] r.1@[i])@ == ocg_name((self.objects().len() + i) as nat),
    {
        let mut dictionary = Dictionary::new();
        let mut ocg_layers_dictionary = self.ocg_layers.duplicate();
        let mut ocg_references: Vec<OcgReference> = Vec::new();
        let ghost existing = self.objects();
        let ghost layer_models = crate::pdf_object::objects_model(layers@);
        let layer_count = layers.len();
        if layer_count > 0 {
            let mut rest = layers;
            let mut taken: usize = 0;
            let ghost all = rest@;
            assert(rest@ =~= all.skip(0));
            while rest.len() > 0
                invariant
                    taken + rest@.len() == all.len(),
                    rest@ == all.skip(taken as int),
                    layer_models == crate::pdf_object::objects_model(all),
                    ocg_layers_dictionary.numbered(),
                    ocg_layers_dictionary.objects() == existing + layer_models.take(taken as int),
                    ocg_references@.len() == taken,
                    forall|i: int| 0 <= i < taken ==> (#[trigger] ocg_references@[i])@ == ocg_name((existing.len() + i) as nat),
                decreases rest.len(),
            {
                let layer = rest.remove(0);
                assert(layer == all[taken as int]);
                let reference = ocg_layers_dictionary.add_ocg(layer);
                ocg_references.push(reference);
                assert(layer_models.take(taken as int + 1) =~= layer_models.take(taken as int).push(layer_models[taken as int]));
                taken = taken + 1;
                assert(rest@ =~= all.skip(taken as int));
            }
            assert(layer_models.take(taken as int) =~= layer_models);
            let current_ocg_dictionary = ocg_layers_dictionary.into_dictionary();
            if !current_ocg_dictionary.is_empty() {
                let ghost properties = current_ocg_dictionary.model();
                dictionary.set(ascii_bytes("Properties"), PdfObject::Dictionary(current_ocg_dictionary));
                assert(dictionary.model() =~= seq![(ascii("Properties"@), Obj::Dictionary(properties))]);
            }
        }
        (dictionary, ocg_references)
    }
}

/// The layers of a page after their streams were collected: each layer is wrapped into
/// its optional content group, numbered from `first`.
pub open spec fn collected_layers(layers: Seq<LayerModel>, first: nat) -> Seq<LayerModel> {
    Seq::new(layers.len(), |i: int| (layers[i].0, wrapped_operations(layers[i].1, ocg_name(first + i as nat))))
}

/// The layers of a page after collecting their streams failed at layer `k`, for which
/// there was no optional content group: the layers before it are wrapped, and it has
/// received its leading `q`.
pub open spec fn partially_collected_layers(layers: Seq<LayerModel>, first: nat, k: int) -> Seq<LayerModel> {
    Seq::new(
        layers.len(),
        |i: int|
            if i < k {
                (layers[i].0, wrapped_operations(layers[i].1, ocg_name(first + i as nat)))
            } else if i == k {
                (layers[i].0, seq![bare_operation("q"@)] + layers[i].1)
            } else {
                layers[i]
            },
    )
}

/// The objects of the given pairs of layer index and object.
pub open spec fn indexed_objects(layers: Seq<(usize, PdfObject)>) -> Seq<Obj> {
    Seq::new(layers.len(), |i: int| layers[i].1.model())
}

/// The representation of a PDF page: its number (its index plus one), its size in
/// points, its layers, its resources and the entries that extend its dictionary.
#[derive(Debug)]
pub struct PdfPage {
    number: usize,
    /// Page width.
    pub width: Real,
    /// Page height.
    pub height: Real,
    /// Page layers.
    pub layers: Vec<PdfLayer>,
    resources: PdfResources,
    extend_with: Option<Dictionary>,
}

impl PdfPage {
    /// The number of the page.
    pub closed spec fn spec_number(&self) -> usize {
        self.number
    }

    /// The width of the page.
    pub closed spec fn spec_width(&self) -> Real {
        self.width
    }

    /// The height of the page.
    pub closed spec fn spec_height(&self) -> Real {
        self.height
    }

    /// The layers of the page.
    pub closed spec fn spec_layers(&self) -> Seq<LayerModel> {
        layers_model(self.layers@)
    }

    /// The objects of the optional content groups of the page's resources.
    pub closed spec fn spec_resources(&self) -> Seq<Obj> {
        self.resources.objects()
    }

    /// The entries that extend the page's dictionary, if any.
    pub closed spec fn spec_extension(&self) -> Option<Seq<(Seq<u8>, Obj)>> {
        match &self.extend_with {
            Some(d) => Some(d.model()),
            None => None,
        }
    }

    /// The resources of the page are numbered by position.
    pub closed spec fn well_formed(&self) -> bool {
        self.resources.well_formed()
    }

    /// A page with the given number and size, without layers, resources or extension.
    pub fn new(number: usize, width: Real, height: Real) -> (page: PdfPage)
        ensures
            page.spec_number() == number,
            page.spec_width() == width,
            page.spec_height() == height,
            page.spec_layers() == Seq::<LayerModel>::empty(),
            page.spec_resources() == Seq::<Obj>::empty(),
            page.spec_extension() is None,
            page.well_formed(),
    {
        let page = PdfPage { number, width, height, layers: Vec::new(), resources: PdfResources::new(), extend_with: None };
        assert(page.spec_layers() =~= Seq::<LayerModel>::empty());
        page
    }

    /// The number of the page.
    pub fn number(&self) -> (n: usize)
        ensures
            n == self.spec_number(),
    {
        self.number
    }

    /// A copy of the entries that extend the page's dictionary, if any.
    pub fn extension(&self) -> (e: Option<Dictionary>)
        ensures
            match e {
                Some(d) => self.spec_extension() == Some(d.model()),
                None => self.spec_extension() is None,
            },
    {
        match &self.extend_with {
            Some(d) => Some(d.duplicate()),
            None => None,
        }
    }

    /// Wraps each layer of the page into the marked content of its optional content group,
    /// and collects the resource dictionary of the page and the streams of the layers.
    /// The objects of the given layers (their second components) become the optional
    /// content groups of the page's layers, in order. Fails when there are fewer of them
    /// than layers, after having changed the layers up to the first one without a group.
    pub fn collect_resources_and_streams(&mut self, layers: &Vec<(usize, PdfObject)>) -> (r: Result<
        (Dictionary, Vec<PdfStream>),
        ContextError,
    >)
        requires
            old(self).well_formed(),
        ensures
            final(self).spec_number() == old(self).spec_number(),
            final(self).spec_width() == old(self).spec_width(),
            final(self).spec_height() == old(self).spec_height(),
            final(self).spec_resources() == old(self).spec_resources(),
            final(self).spec_extension() == old(self).spec_extension(),
            final(self).well_formed(),
            r is Ok <==> old(self).spec_layers().len() <= layers@.len(),
            r matches Ok((dictionary, streams)) ==> {
                &&& dictionary.model() == resource_entries(old(self).spec_resources(), indexed_objects(layers@))
                &&& final(self).spec_layers() == collected_layers(old(self).spec_layers(), old(self).spec_resources().len())
                &&& streams@.len() == old(self).spec_layers().len()
                &&& forall|i: int|
                    0 <= i < streams@.len() ==> {
                        &&& (#[trigger] streams@[i]).dict.model() == Seq::<(Seq<u8>, Obj)>::empty()
                        &&& streams@[i].content.model() == layer_stream_content(final(self).spec_layers()[i].1)
                        &&& !streams@[i].allows_compression
                    }
            },
            r matches Err(e) ==> {
                &&& e.context@ == "Unable to find the index in the OCG references"@
                &&& e.source_error is None
                &&& final(self).spec_layers() == partially_collected_layers(
                    old(self).spec_layers(),
                    old(self).spec_resources().len(),
                    layers@.len() as int,
                )
            },
    {
        let mut current_layers: Vec<PdfObject> = Vec::new();
        let mut i: usize = 0;
        while i < layers.len()
            invariant
                i <= layers.len(),
                current_layers@.len() == i,
                forall|j: int| 0 <= j < i ==> (#[trigger] current_layers@[j]).model() == layers@[j].1.model(),
            decreases layers.len() - i,
        {
            current_layers.push(layers[i].1.duplicate());
            i = i + 1;
        }
        assert(crate::pdf_object::objects_model(current_layers@) =~= indexed_objects(layers@));
        let (resource_dictionary, ocg_references) = self.resources.with_document_and_layers(current_layers);
        let ghost first = self.resources.objects().len();
        let ghost old_layers = layers_model(self.layers@);
        let mut layer_streams: Vec<PdfStream> = Vec::new();
        let mut rest: Vec<PdfLayer> = Vec::new();
        std::mem::swap(&mut rest, &mut self.layers);
        let ghost all = rest@;
        let mut done: Vec<PdfLayer> = Vec::new();
        let mut index: usize = 0;
        assert(rest@ =~= all.skip(0));
        while rest.len() > 0
            invariant
                index + rest@.len() == all.len(),
                rest@ == all.skip(index as int),
                old_layers == layers_model(all),
                done@.len() == index,
                layer_streams@.len() == index,
                ocg_references@.len() == layers@.len(),
                forall|j: int| 0 <= j < layers@.len() ==> (#[trigger] ocg_references@[j])@ == ocg_name((first + j) as nat),
                forall|j: int| 0 <= j < index ==> (#[trigger] done@[j])@ == collected_layers(old_layers, first)[j],
                self.number == old(self).number,
                self.width == old(self).width,
                self.height == old(self).height,
                self.resources == old(self).resources,
                self.resources.well_formed(),
                self.extend_with == old(self).extend_with,
                first == old(self).resources.objects().len(),
                old_layers == layers_model(old(self).layers@),
                forall|j: int|
                    0 <= j < index ==> {
                        &&& (#[trigger] layer_streams@[j]).dict.model() == Seq::<(Seq<u8>, Obj)>::empty()
                        &&& layer_streams@[j].content.model() == layer_stream_content(collected_layers(old_layers, first)[j].1)
                        &&& !layer_streams@[j].allows_compression
                    },
                index <= layers@.len(),
            decreases rest.len(),
        {
            let mut layer = rest.remove(0);
            assert(layer == all[index as int]);
            assert(layer@ == old_layers[index as int]);
            assert(operands_model(Seq::<Operand>::empty()) =~= Seq::<OperandModel>::empty());
            layer.prepend(ContentOperation::new("q", Vec::new()));
            assert(layer@ == (old_layers[index as int].0, seq![bare_operation("q"@)] + old_layers[index as int].1));
            if index >= ocg_references.len() {
                let ghost pushed = layer@;
                let ghost done_old = done@;
                done.push(layer);
                let ghost done_before_append = done@;
                let ghost rest_before_append = rest@;
                done.append(&mut rest);
                self.layers = done;
                proof {
                    let expected = partially_collected_layers(old_layers, first, layers@.len() as int);
                    assert(index == layers@.len());
                    assert(self.layers@ =~= done_before_append + rest_before_append);
                    assert forall|j: int| 0 <= j < all.len() implies #[trigger] layers_model(self.layers@)[j] == expected[j] by {
                        assert(layers_model(self.layers@)[j] == self.layers@[j]@);
                        if j < index {
                            assert(self.layers@[j] == done_before_append[j]);
                            assert(done_before_append[j] == done_old[j]);
                        } else if j == index {
                            assert(self.layers@[j] == done_before_append[j]);
                            assert(done_before_append[j]@ == pushed);
                        } else {
                            assert(self.layers@[j] == rest_before_append[j - index - 1]);
                            assert(rest_before_append[j - index - 1] == all[j]);
                            assert(old_layers[j] == all[j]@);
                        }
                    }
                    assert(layers_model(self.layers@) =~= expected);
                }
                return Err(ContextError::with_context("Unable to find the index in the OCG references".to_string()));
            }
            let mut operands: Vec<Operand> = Vec::new();
            operands.push(Operand::Name(ascii_bytes("OC")));
            operands.push(Operand::Name(utf8_bytes(ocg_references[index].name().as_str())));
            let ghost operand_models = operands_model(operands@);
            assert(operand_models =~= seq![OperandModel::Name(ascii("OC"@)), OperandModel::Name(utf8(ocg_name((first + index) as nat)))]);
            layer.prepend(ContentOperation::new("BDC", operands));
            layer.append_operation(ContentOperation::new("Q", Vec::new()));
            layer.append_operation(ContentOperation::new("EMC", Vec::new()));
            proof {
                let expected = collected_layers(old_layers, first)[index as int];
                assert(operands_model(Seq::<Operand>::empty()) =~= Seq::<OperandModel>::empty());
                assert(layer@.1 =~= expected.1);
            }
            layer_streams.push(layer.duplicate().into_stream());
            done.push(layer);
            index = index + 1;
            assert(rest@ =~= all.skip(index as int));
        }
        self.layers = done;
        assert(layers_model(self.layers@) =~= collected_layers(old_layers, first));
        Ok((resource_dictionary, layer_streams))
    }
}

/// What the canonical composition of `UnicodeNormalization::nfc` yields for a text.
pub uninterp spec fn nfc(text: Seq<char>) -> Seq<char>;

/// Calls `UnicodeNormalization::nfc` on a text and collects the characters it yields
/// (the text in Normalization Form C).
#[verifier::external_body]
fn nfc_chars(text: &str) -> (normalized: Vec<char>)
    ensures
        normalized@ == nfc(text@),
{
    text.nfc().collect()
}

/// The identifier of the font at an index: `F` and the index.
pub open spec fn font_key(index: nat) -> Seq<char> {
    "F"@ + decimal(index)
}

/// The key of the font at an index in the dictionary of fonts: its identifier in UTF-8.
pub open spec fn font_key_bytes(index: nat) -> Seq<u8> {
    utf8(font_key(index))
}

/// Distinct indices give distinct font keys.
pub proof fn lemma_font_key_injective(a: nat, b: nat)
    requires
        font_key_bytes(a) == font_key_bytes(b),
    ensures
        a == b,
{
    reveal_strlit("F");
    vstd::utf8::encode_utf8_decode_utf8(font_key(a));
    vstd::utf8::encode_utf8_decode_utf8(font_key(b));
    assert(font_key(a) == font_key(b));
    assert(font_key(a).subrange(1, font_key(a).len() as int) =~= decimal(a));
    assert(font_key(b).subrange(1, font_key(b).len() as int) =~= decimal(b));
    lemma_decimal_injective(a, b);
}

/// `order` lists the indices below `n` in the lexicographic order of the keys of their
/// fonts (each index once, as the order is strict): the order in which a map keyed by the
/// font identifiers is walked.
pub open spec fn is_key_order(order: Seq<usize>, n: nat) -> bool {
    &&& order.len() == n
    &&& forall|k: int| 0 <= k < n ==> #[trigger] order[k] < n
    &&& forall|a: int, b: int|
        0 <= a < b < n ==> bytes_lt(font_key_bytes(#[trigger] order[a] as nat), font_key_bytes(#[trigger] order[b] as nat))
}

/// In the order of the font keys, each font comes exactly once: the indices are distinct,
/// and every index below `n` is among them.
pub proof fn lemma_key_order_is_permutation(order: Seq<usize>, n: nat)
    requires
        is_key_order(order, n),
    ensures
        forall|a: int, b: int| 0 <= a < b < n ==> #[trigger] order[a] != #[trigger] order[b],
        forall|i: usize| i < n ==> #[trigger] order.contains(i),
{
    assert forall|a: int, b: int| 0 <= a < b < n implies #[trigger] order[a] != #[trigger] order[b] by {
        lemma_bytes_lt_irreflexive(font_key_bytes(order[a] as nat));
    }
    let indices = order.map_values(|x: usize| x as int);
    assert(indices.no_duplicates()) by {
        assert forall|a: int, b: int| 0 <= a < indices.len() && 0 <= b < indices.len() && a != b implies indices[a] != indices[b] by {
            if a < b {
                assert(order[a] != order[b]);
            } else {
                assert(order[b] != order[a]);
            }
        }
    }
    indices.unique_seq_to_set();
    let range = vstd::set_lib::set_int_range(0, n as int);
    vstd::set_lib::lemma_int_range(0, n as int);
    assert(indices.to_set().subset_of(range)) by {
        assert forall|x: int| indices.to_set().contains(x) implies range.contains(x) by {
            assert(indices.contains(x));
            let k = choose|k: int| 0 <= k < indices.len() && indices[k] == x;
            assert(order[k] < n);
        }
    }
    vstd::seq_lib::seq_to_set_is_finite(indices);
    vstd::set_lib::lemma_subset_equality(indices.to_set(), range);
    assert forall|i: usize| i < n implies #[trigger] order.contains(i) by {
        assert(range.contains(i as int));
        assert(indices.to_set().contains(i as int));
        assert(indices.contains(i as int));
        let k = choose|k: int| 0 <= k < indices.len() && indices[k] == i as int;
        assert(order[k] == i);
    }
}

/// Two key orders of the same fonts agree on their first `k` indices.
proof fn lemma_key_orders_agree(a: Seq<usize>, b: Seq<usize>, n: nat, k: nat)
    requires
        is_key_order(a, n),
        is_key_order(b, n),
        k <= n,
    ensures
        forall|i: int| 0 <= i < k ==> a[i] == b[i],
    decreases k,
{
    if k > 0 {
        let p = (k - 1) as int;
        lemma_key_orders_agree(a, b, n, (k - 1) as nat);
        lemma_key_order_is_permutation(a, n);
        lemma_key_order_is_permutation(b, n);
        let x = a[p];
        let y = b[p];
        if x != y {
            assert(b.contains(x));
            let i = choose|i: int| 0 <= i < b.len() && b[i] == x;
            assert(a.contains(y));
            let j = choose|j: int| 0 <= j < a.len() && a[j] == y;
            if i < p {
                assert(a[i] == x);
                assert(a[i] != a[p]);
            }
            if j < p {
                assert(b[j] == y);
                assert(b[j] != b[p]);
            }
            assert(p < i && p < j);
            assert(bytes_lt(font_key_bytes(y as nat), font_key_bytes(x as nat)));
            assert(bytes_lt(font_key_bytes(x as nat), font_key_bytes(y as nat)));
            lemma_bytes_lt_transitive(font_key_bytes(x as nat), font_key_bytes(y as nat), font_key_bytes(x as nat));
            lemma_bytes_lt_irreflexive(font_key_bytes(x as nat));
        }
    }
}

/// The order of the font keys is unique.
proof fn lemma_key_order_unique(a: Seq<usize>, b: Seq<usize>, n: nat)
    requires
        is_key_order(a, n),
        is_key_order(b, n),
    ensures
        a == b,
{
    lemma_key_orders_agree(a, b, n, n);
    assert(a =~= b);
}

/// Inserting the fonts in a given order gives the same objects every time.
proof fn lemma_fonts_insertion_unique(
    fonts: Seq<(ObjectId, Font)>,
    order: Seq<usize>,
    m: u32,
    a: Seq<(ObjectId, Obj)>,
    b: Seq<(ObjectId, Obj)>,
)
    requires
        is_fonts_insertion(fonts, order, m, a),
        is_fonts_insertion(fonts, order, m, b),
    ensures
        a == b,
{
    assert forall|k: int| 0 <= k < order.len() implies #[trigger] a.subrange(4 * k, 4 * k + 4) == b.subrange(4 * k, 4 * k + 4) by {
        let sa = a.subrange(4 * k, 4 * k + 4);
        let sb = b.subrange(4 * k, 4 * k + 4);
        assert(font_segment_ok(fonts, order[k], (m + 3 * k) as u32, sa));
        assert(font_segment_ok(fonts, order[k], (m + 3 * k) as u32, sb));
        crate::font::lemma_font_insertion_unique(
            fonts[order[k] as int].1,
            (m + 3 * k) as u32,
            sa.take(3),
            sa[3].1->Dictionary_0,
            sb.take(3),
            sb[3].1->Dictionary_0,
        );
        assert(sa =~= sb) by {
            assert(sa[0] == sa.take(3)[0]);
            assert(sa[1] == sa.take(3)[1]);
            assert(sa[2] == sa.take(3)[2]);
            assert(sb[0] == sb.take(3)[0]);
            assert(sb[1] == sb.take(3)[1]);
            assert(sb[2] == sb.take(3)[2]);
        }
    }
    assert forall|i: int| 0 <= i < a.len() implies a[i] == b[i] by {
        let k = i / 4;
        assert(0 <= k < order.len());
        assert(4 * k <= i < 4 * k + 4);
        assert(a.subrange(4 * k, 4 * k + 4)[i - 4 * k] == b.subrange(4 * k, 4 * k + 4)[i - 4 * k]);
    }
    assert(a =~= b);
}

/// Writing a document is deterministic: the order of the fonts and the objects that
/// describe them, which is all that the contract of `write_all` leaves to be chosen, can
/// be chosen in one way only, so that a document written twice gives the same objects.
pub proof fn lemma_written_fonts_unique(
    fonts: Seq<(ObjectId, Font)>,
    m: u32,
    order_a: Seq<usize>,
    objects_a: Seq<(ObjectId, Obj)>,
    order_b: Seq<usize>,
    objects_b: Seq<(ObjectId, Obj)>,
)
    requires
        is_key_order(order_a, fonts.len()),
        is_key_order(order_b, fonts.len()),
        is_fonts_insertion(fonts, order_a, m, objects_a),
        is_fonts_insertion(fonts, order_b, m, objects_b),
    ensures
        order_a == order_b,
        objects_a == objects_b,
        fonts_dictionary_entries(fonts, order_a) == fonts_dictionary_entries(fonts, order_b),
{
    lemma_key_order_unique(order_a, order_b, fonts.len());
    lemma_fonts_insertion_unique(fonts, order_a, m, objects_a, objects_b);
}

/// The indices below `n` in the lexicographic order of the keys `F0`, `F1`, ... of their
/// fonts (so `F10` comes before `F2`).
pub fn font_key_order(n: usize) -> (order: Vec<usize>)
    ensures
        is_key_order(order@, n as nat),
{
    let mut keys: Vec<Vec<u8>> = Vec::new();
    let mut remaining: Vec<usize> = Vec::new();
    let mut i: usize = 0;
    while i < n
        invariant
            i <= n,
            keys@.len() == i,
            remaining@.len() == i,
            forall|j: int| 0 <= j < i ==> (#[trigger] keys@[j])@ == font_key_bytes(j as nat),
            forall|j: int| 0 <= j < i ==> #[trigger] remaining@[j] == j,
        decreases n - i,
    {
        keys.push(utf8_bytes(prefixed_number("F", i).as_str()));
        remaining.push(i);
        i = i + 1;
    }
    let mut order: Vec<usize> = Vec::new();
    while remaining.len() > 0
        invariant
            keys@.len() == n,
            forall|j: int| 0 <= j < n ==> (#[trigger] keys@[j])@ == font_key_bytes(j as nat),
            order@.len() + remaining@.len() == n,
            forall|k: int| 0 <= k < order@.len() ==> #[trigger] order@[k] < n,
            forall|k: int| 0 <= k < remaining@.len() ==> #[trigger] remaining@[k] < n,
            forall|a: int, b: int| 0 <= a < b < remaining@.len() ==> #[trigger] remaining@[a] != #[trigger] remaining@[b],
            forall|a: int, b: int|
                0 <= a < b < order@.len() ==> bytes_lt(font_key_bytes(#[trigger] order@[a] as nat), font_key_bytes(#[trigger] order@[b] as nat)),
            forall|a: int, b: int|
                0 <= a < order@.len() && 0 <= b < remaining@.len() ==> bytes_lt(
                    font_key_bytes(#[trigger] order@[a] as nat),
                    font_key_bytes(#[trigger] remaining@[b] as nat),
                ),
        decreases remaining.len(),
    {
        let mut best: usize = 0;
        let mut j: usize = 1;
        proof {
            lemma_bytes_lt_irreflexive(font_key_bytes(remaining@[0] as nat));
        }
        while j < remaining.len()
            invariant
                1 <= j <= remaining@.len(),
                best < remaining@.len(),
                keys@.len() == n,
                forall|q: int| 0 <= q < n ==> (#[trigger] keys@[q])@ == font_key_bytes(q as nat),
                forall|k: int| 0 <= k < remaining@.len() ==> #[trigger] remaining@[k] < n,
                forall|q: int| 0 <= q < j ==> !bytes_lt(
                    font_key_bytes(#[trigger] remaining@[q] as nat),
                    font_key_bytes(remaining@[best as int] as nat),
                ),
            decreases remaining.len() - j,
        {
            let ghost previous = best;
            if bytes_less(&keys[remaining[j]], &keys[remaining[best]]) {
                proof {
                    let kb = font_key_bytes(remaining@[previous as int] as nat);
                    let kj = font_key_bytes(remaining@[j as int] as nat);
                    assert forall|q: int| 0 <= q < j implies !bytes_lt(font_key_bytes(#[trigger] remaining@[q] as nat), kj) by {
                        let kq = font_key_bytes(remaining@[q] as nat);
                        if bytes_lt(kq, kj) {
                            lemma_bytes_lt_transitive(kq, kj, kb);
                        }
                    }
                    lemma_bytes_lt_irreflexive(kj);
                }
                best = j;
            }
            j = j + 1;
        }
        let ghost before = remaining@;
        let chosen = remaining.remove(best);
        proof {
            let kc = font_key_bytes(chosen as nat);
            assert forall|b: int| 0 <= b < remaining@.len() implies bytes_lt(kc, font_key_bytes(#[trigger] remaining@[b] as nat)) by {
                let other = if b < best { b } else { b + 1 };
                assert(remaining@[b] == before[other]);
                assert(before[other] != before[best as int]);
                let ko = font_key_bytes(before[other] as nat);
                assert(!bytes_lt(ko, kc));
                if ko == kc {
                    lemma_font_key_injective(before[other] as nat, chosen as nat);
                }
                lemma_bytes_lt_total(ko, kc);
            }
            assert forall|a: int, b: int| 0 <= a < b < remaining@.len() implies #[trigger] remaining@[a] != #[trigger] remaining@[b] by {
                let oa = if a < best { a } else { a + 1 };
                let ob = if b < best { b } else { b + 1 };
                assert(remaining@[a] == before[oa]);
                assert(remaining@[b] == before[ob]);
            }
            assert forall|a: int, b: int|
                0 <= a < order@.len() && 0 <= b < remaining@.len() implies bytes_lt(
                    font_key_bytes(#[trigger] order@[a] as nat),
                    font_key_bytes(#[trigger] remaining@[b] as nat),
                ) by {
                let ob = if b < best { b } else { b + 1 };
                assert(remaining@[b] == before[ob]);
            }
        }
        let ghost order_before = order@;
        order.push(chosen);
        proof {
            assert forall|a: int, b: int| 0 <= a < b < order@.len() implies bytes_lt(
                font_key_bytes(#[trigger] order@[a] as nat),
                font_key_bytes(#[trigger] order@[b] as nat),
            ) by {
                if b < order_before.len() {
                    assert(order@[a] == order_before[a]);
                    assert(order@[b] == order_before[b]);
                } else {
                    assert(order@[a] == order_before[a]);
                    assert(before[best as int] == chosen);
                }
            }
            assert forall|a: int, b: int|
                0 <= a < order@.len() && 0 <= b < remaining@.len() implies bytes_lt(
                    font_key_bytes(#[trigger] order@[a] as nat),
                    font_key_bytes(#[trigger] remaining@[b] as nat),
                ) by {
                if a < order_before.len() {
                    assert(order@[a] == order_before[a]);
                }
            }
        }
    }
    order
}

/// The glyph identifiers of the characters of a text that the font (parsed from `data`)
/// has, in order; the other characters are left out.
pub open spec fn text_glyphs(data: Seq<u8>, text: Seq<char>) -> Seq<u16>
    decreases text.len(),
{
    if text.len() == 0 {
        Seq::empty()
    } else {
        let rest = text_glyphs(data, text.drop_last());
        match glyph_index_of(data, text.last()) {
            Some(g) => rest.push(g),
            None => rest,
        }
    }
}

/// The two bytes of a glyph identifier, most significant first.
pub open spec fn glyph_id_bytes(g: u16) -> Seq<u8> {
    seq![(g / 256) as u8, (g % 256) as u8]
}

/// The bytes of glyph identifiers, two per glyph, most significant first.
pub open spec fn glyph_bytes(glyphs: Seq<u16>) -> Seq<u8>
    decreases glyphs.len(),
{
    if glyphs.len() == 0 {
        Seq::empty()
    } else {
        glyph_bytes(glyphs.drop_last()) + glyph_id_bytes(glyphs.last())
    }
}

/// The glyph identifiers that pairs of bytes stand for, most significant byte first.
pub open spec fn decode_glyph_bytes(bytes: Seq<u8>) -> Seq<u16>
    decreases bytes.len(),
{
    if bytes.len() < 2 {
        Seq::empty()
    } else {
        decode_glyph_bytes(bytes.subrange(0, bytes.len() - 2)).push(
            (bytes[bytes.len() - 2] as nat * 256 + bytes[bytes.len() - 1] as nat) as u16,
        )
    }
}

/// Reading the bytes of glyph identifiers two by two gives the glyph identifiers back.
pub proof fn lemma_glyph_bytes_round_trip(glyphs: Seq<u16>)
    ensures
        glyph_bytes(glyphs).len() == 2 * glyphs.len(),
        decode_glyph_bytes(glyph_bytes(glyphs)) == glyphs,
    decreases glyphs.len(),
{
    if glyphs.len() > 0 {
        let rest = glyphs.drop_last();
        let g = glyphs.last();
        lemma_glyph_bytes_round_trip(rest);
        let bytes = glyph_bytes(glyphs);
        assert(bytes == glyph_bytes(rest) + glyph_id_bytes(g));
        assert(bytes.subrange(0, bytes.len() - 2) =~= glyph_bytes(rest));
        assert(bytes[bytes.len() - 2] == (g / 256) as u8);
        assert(bytes[bytes.len() - 1] == (g % 256) as u8);
        assert(((g / 256) as u8) as nat * 256 + ((g % 256) as u8) as nat == g as nat) by (nonlinear_arith);
        assert(decode_glyph_bytes(bytes) =~= rest.push(g));
        assert(rest.push(g) =~= glyphs);
    }
}

/// The operations that write a text: begin the text, select the font and its size, move
/// to the position (in millimeters), set the filling color, show the glyphs (their
/// identifiers, two bytes each, as a hexadecimal string) and end the text.
pub open spec fn text_operations(
    face: Seq<char>,
    font_size: u32,
    caret_position: [u32; 2],
    color: [u32; 3],
    glyphs: Seq<u16>,
) -> Seq<OperationModel> {
    seq![
        bare_operation("BT"@),
        ("Tf"@, seq![OperandModel::Name(utf8(face)), OperandModel::Real(Real::Value(font_size))]),
        (
            "Td"@,
            seq![
                OperandModel::Real(Real::Millimeters(caret_position[0])),
                OperandModel::Real(Real::Millimeters(caret_position[1])),
            ],
        ),
        (
            "rg"@,
            seq![
                OperandModel::Real(Real::Value(color[0])),
                OperandModel::Real(Real::Value(color[1])),
                OperandModel::Real(Real::Value(color[2])),
            ],
        ),
        ("Tj"@, seq![OperandModel::Str(glyph_bytes(glyphs), StringFormat::Hexadecimal)]),
        bare_operation("ET"@),
    ]
}

/// Writing a text onto a layer appends, after the operations the layer held, a text
/// object that begins (`BT`), selects the font under its key at the font size (`Tf`),
/// moves to the caret position, x then y in millimeters (`Td`), sets the filling color,
/// red then green then blue (`rg`), shows the glyphs and ends (`ET`); the other layers
/// and pages keep their operations.
pub proof fn lemma_written_text_operations(
    pages: Seq<Seq<LayerModel>>,
    page: int,
    layer: int,
    key: Seq<char>,
    font_size: u32,
    caret_position: [u32; 2],
    color: [u32; 3],
    glyphs: Seq<u16>,
)
    requires
        0 <= page < pages.len(),
        0 <= layer < pages[page].len(),
    ensures
        ({
            let after = page_with_operations(pages, page, layer, text_operations(key, font_size, caret_position, color, glyphs));
            let before = pages[page][layer].1;
            let n = before.len() as int;
            &&& after.len() == pages.len()
            &&& forall|q: int| 0 <= q < pages.len() && q != page ==> #[trigger] after[q] == pages[q]
            &&& after[page].len() == pages[page].len()
            &&& forall|l: int| 0 <= l < pages[page].len() && l != layer ==> #[trigger] after[page][l] == pages[page][l]
            &&& after[page][layer].0 == pages[page][layer].0
            &&& after[page][layer].1.len() == n + 6
            &&& after[page][layer].1.take(n) == before
            &&& after[page][layer].1[n] == ("BT"@, Seq::<OperandModel>::empty())
            &&& after[page][layer].1[n + 1] == ("Tf"@, seq![OperandModel::Name(utf8(key)), OperandModel::Real(Real::Value(font_size))])
            &&& after[page][layer].1[n + 2] == ("Td"@, seq![
                OperandModel::Real(Real::Millimeters(caret_position[0])),
                OperandModel::Real(Real::Millimeters(caret_position[1])),
            ])
            &&& after[page][layer].1[n + 3] == ("rg"@, seq![
                OperandModel::Real(Real::Value(color[0])),
                OperandModel::Real(Real::Value(color[1])),
                OperandModel::Real(Real::Value(color[2])),
            ])
            &&& after[page][layer].1[n + 4] == ("Tj"@, seq![OperandModel::Str(glyph_bytes(glyphs), StringFormat::Hexadecimal)])
            &&& after[page][layer].1[n + 5] == ("ET"@, Seq::<OperandModel>::empty())
        }),
{
    let after = page_with_operations(pages, page, layer, text_operations(key, font_size, caret_position, color, glyphs));
    let before = pages[page][layer].1;
    let ops = text_operations(key, font_size, caret_position, color, glyphs);
    assert(after[page][layer].1 == before + ops);
    assert((before + ops).take(before.len() as int) =~= before);
}

/// The page at an index after appending operations to one of its layers.
pub open spec fn page_with_operations(pages: Seq<Seq<LayerModel>>, page_index: int, layer_index: int, operations: Seq<OperationModel>) -> Seq<Seq<LayerModel>> {
    pages.update(
        page_index,
        pages[page_index].update(
            layer_index,
            (pages[page_index][layer_index].0, pages[page_index][layer_index].1 + operations),
        ),
    )
}

/// Font `i` is named `F` and `i`, and its dictionary has an object number that was given
/// out by the store and that no other font has (the number holds nothing until the
/// document is written, and the font's dictionary after).
pub open spec fn fonts_well_formed(fonts: Seq<(ObjectId, Font)>, store: ObjectStore) -> bool {
    &&& forall|i: int| 0 <= i < fonts.len() ==> (#[trigger] fonts[i]).1.spec_face_identifier() == font_key(i as nat)
    &&& forall|i: int|
        0 <= i < fonts.len() ==> {
            &&& 1 <= (#[trigger] fonts[i]).0.0 <= store.max_id
            &&& fonts[i].0.1 == 0
            &&& fonts[i].1.spec_bytes().len() <= i64::MAX
        }
    &&& forall|i: int, j: int| 0 <= i < j < fonts.len() ==> #[trigger] fonts[i].0 != #[trigger] fonts[j].0
}

/// The four objects that inserting one font stores: the three of
/// `Font::insert_into_document`, for a document whose largest object number is `m`, then
/// the font dictionary under the object identifier given out for it.
pub open spec fn font_segment_ok(fonts: Seq<(ObjectId, Font)>, index: usize, m: u32, segment: Seq<(ObjectId, Obj)>) -> bool {
    &&& segment.len() == 4
    &&& segment[3].0 == fonts[index as int].0
    &&& segment[3].1 is Dictionary
    &&& is_font_insertion(fonts[index as int].1, m, segment.take(3), segment[3].1->Dictionary_0)
}

/// The objects that inserting the fonts in the given order stores into a document whose
/// largest object number is `m`: four for each font, three new object numbers being given
/// out for each.
pub open spec fn is_fonts_insertion(fonts: Seq<(ObjectId, Font)>, order: Seq<usize>, m: u32, objects: Seq<(ObjectId, Obj)>) -> bool {
    &&& objects.len() == 4 * order.len()
    &&& forall|k: int|
        0 <= k < order.len() ==> #[trigger] font_segment_ok(fonts, order[k], (m + 3 * k) as u32, objects.subrange(4 * k, 4 * k + 4))
}

/// The entries of the dictionary of fonts: the key of each font, in the given order, with
/// a reference to its dictionary.
pub open spec fn fonts_dictionary_entries(fonts: Seq<(ObjectId, Font)>, order: Seq<usize>) -> Seq<(Seq<u8>, Obj)> {
    Seq::new(order.len(), |k: int| (font_key_bytes(order[k] as nat), Obj::Reference(fonts[order[k] as int].0)))
}

/// Page `i` has the number `i + 1`, and its resources are well formed.
pub open spec fn pages_well_formed(pages: Seq<PdfPage>) -> bool {
    forall|i: int| 0 <= i < pages.len() ==> (#[trigger] pages[i]).spec_number() == i + 1 && pages[i].well_formed()
}

/// Every page has exactly one layer, named `Layer0`.
pub open spec fn single_layer_pages(pages: Seq<PdfPage>) -> bool {
    forall|i: int|
        0 <= i < pages.len() ==> (#[trigger] pages[i]).spec_layers().len() == 1 && pages[i].spec_layers()[0].0 == "Layer0"@
}

/// A string object written from a text in UTF-8.
pub open spec fn literal(text: Seq<char>) -> Obj {
    Obj::Str(utf8(text), StringFormat::Literal)
}

/// The total number of layers of the pages.
pub open spec fn layer_total(pages: Seq<PdfPage>) -> nat
    decreases pages.len(),
{
    if pages.len() == 0 {
        0
    } else {
        layer_total(pages.drop_last()) + pages.last().spec_layers().len()
    }
}

/// The dictionary of the optional content group of a layer.
pub open spec fn ocg_dictionary(layer_name: Seq<char>, intent_id: ObjectId, usage_id: ObjectId) -> Seq<(Seq<u8>, Obj)> {
    seq![
        (ascii("Type"@), name("OCG"@)),
        (ascii("Name"@), literal(layer_name)),
        (ascii("Intent"@), Obj::Reference(intent_id)),
        (ascii("Usage"@), Obj::Reference(usage_id)),
    ]
}

/// The references to the optional content groups of the layers of page `k`, the groups
/// of all layers being numbered consecutively from `first`.
pub open spec fn page_ocg_references(pages: Seq<PdfPage>, first: int, k: int) -> Seq<Obj> {
    Seq::new(
        pages[k].spec_layers().len(),
        |l: int| Obj::Reference(((first + layer_total(pages.take(k)) + l) as u32, 0u16)),
    )
}

/// The references to the optional content groups of all layers, page after page.
pub open spec fn ocg_references(pages: Seq<PdfPage>, first: int) -> Seq<Obj>
    decreases pages.len(),
{
    if pages.len() == 0 {
        Seq::empty()
    } else {
        ocg_references(pages.drop_last(), first) + page_ocg_references(pages, first, pages.len() - 1)
    }
}

/// The dictionaries of the optional content groups of the layers of page `k`, with their
/// object identifiers.
pub open spec fn page_ocg_objects(pages: Seq<PdfPage>, first: int, k: int, intent_id: ObjectId, usage_id: ObjectId) -> Seq<(ObjectId, Obj)> {
    Seq::new(
        pages[k].spec_layers().len(),
        |l: int|
            (
                ((first + layer_total(pages.take(k)) + l) as u32, 0u16),
                Obj::Dictionary(ocg_dictionary(pages[k].spec_layers()[l].0, intent_id, usage_id)),
            ),
    )
}

/// The dictionaries of the optional content groups of all layers, page after page.
pub open spec fn ocg_objects(pages: Seq<PdfPage>, first: int, intent_id: ObjectId, usage_id: ObjectId) -> Seq<(ObjectId, Obj)>
    decreases pages.len(),
{
    if pages.len() == 0 {
        Seq::empty()
    } else {
        ocg_objects(pages.drop_last(), first, intent_id, usage_id) + page_ocg_objects(pages, first, pages.len() - 1, intent_id, usage_id)
    }
}

/// The objects of the layers of each page as the groups of its layers: for page `k`, the
/// numbers of its layers with references to their groups.
pub open spec fn is_ocg_association(association: Seq<(usize, Vec<(usize, PdfObject)>)>, pages: Seq<PdfPage>, first: int) -> bool {
    &&& association.len() == pages.len()
    &&& forall|k: int|
        0 <= k < pages.len() ==> {
            &&& (#[trigger] association[k]).0 == pages[k].spec_number()
            &&& association[k].1@.len() == pages[k].spec_layers().len()
            &&& forall|l: int| 0 <= l < association[k].1@.len() ==> (#[trigger] association[k].1@[l]).0 == l
            &&& indexed_objects(association[k].1@) == page_ocg_references(pages, first, k)
        }
}

/// Stores the dictionary of the optional content group of each layer of each page, page
/// after page. Returns, for each page, its number with the indices of its layers and
/// references to their groups, and the references to all groups in order.
pub fn add_ocg_dictionaries(store: &mut ObjectStore, pages: &Vec<PdfPage>, intent_id: ObjectId, usage_id: ObjectId) -> (r: (
    Vec<(usize, Vec<(usize, PdfObject)>)>,
    Vec<PdfObject>,
))
    requires
        old(store).well_formed(),
        old(store).max_id + layer_total(pages@) <= u32::MAX,
    ensures
        final(store).well_formed(),
        final(store).max_id == old(store).max_id + layer_total(pages@),
        final(store).model() == old(store).model() + ocg_objects(pages@, old(store).max_id + 1, intent_id, usage_id),
        final(store).trailer == old(store).trailer,
        final(store).version == old(store).version,
        is_ocg_association(r.0@, pages@, old(store).max_id + 1),
        crate::pdf_object::objects_model(r.1@) == ocg_references(pages@, old(store).max_id + 1),
        forall|k: ObjectId|
            #[trigger] has_key(final(store).model(), k) ==> has_key(old(store).model(), k) || k.0 > old(store).max_id,
{
    let ghost first = store.max_id + 1;
    let ghost start = store.model();
    let ghost old_max = store.max_id;
    let mut association: Vec<(usize, Vec<(usize, PdfObject)>)> = Vec::new();
    let mut references: Vec<PdfObject> = crate::pdf_object::new_items();
    let mut p: usize = 0;
    while p < pages.len()
        invariant
            p <= pages@.len(),
            first == old_max + 1,
            old_max + layer_total(pages@) <= u32::MAX,
            store.well_formed(),
            store.max_id == old_max + layer_total(pages@.take(p as int)),
            store.model() == start + ocg_objects(pages@.take(p as int), first, intent_id, usage_id),
            store.trailer == old(store).trailer,
            store.version == old(store).version,
            is_ocg_association(association@, pages@.take(p as int), first),
            crate::pdf_object::objects_model(references@) == ocg_references(pages@.take(p as int), first),
            forall|k: ObjectId| #[trigger] has_key(store.model(), k) ==> has_key(start, k) || k.0 > old_max,
            start == old(store).model(),
            old_max == old(store).max_id,
        decreases pages@.len() - p,
    {
        let page = &pages[p];
        let ghost taken = pages@.take(p as int);
        let ghost next = pages@.take(p as int + 1);
        proof {
            assert(next.drop_last() =~= taken);
            assert(next.take(p as int) =~= taken);
            lemma_layer_total_prefix(pages@, p as int);
        }
        let ghost model_start = store.model();
        let ghost references_start = crate::pdf_object::objects_model(references@);
        let mut layer_entries: Vec<(usize, PdfObject)> = Vec::new();
        let mut l: usize = 0;
        while l < page.layers.len()
            invariant
                l <= page.spec_layers().len(),
                page == pages@[p as int],
                p < pages@.len(),
                taken == pages@.take(p as int),
                layer_total(taken) + page.spec_layers().len() <= layer_total(pages@),
                old_max + layer_total(pages@) <= u32::MAX,
                store.well_formed(),
                store.max_id == old_max + layer_total(taken) + l,
                store.model() == model_start + page_ocg_objects(next, first, p as int, intent_id, usage_id).take(l as int),
                store.trailer == old(store).trailer,
                store.version == old(store).version,
                first == old_max + 1,
                next == pages@.take(p as int + 1),
                next.take(p as int) == taken,
                layer_entries@.len() == l,
                forall|q: int| 0 <= q < l ==> (#[trigger] layer_entries@[q]).0 == q,
                indexed_objects(layer_entries@) == page_ocg_references(next, first, p as int).take(l as int),
                forall|k: ObjectId| #[trigger] has_key(store.model(), k) ==> has_key(start, k) || k.0 > old_max,
                crate::pdf_object::objects_model(references@) == references_start + page_ocg_references(next, first, p as int).take(l as int),
            decreases page.spec_layers().len() - l,
        {
            let mut entries = crate::pdf_object::new_entries();
            crate::pdf_object::add_entry(&mut entries, "Type", crate::pdf_object::name_object("OCG"));
            crate::pdf_object::add_entry(
                &mut entries,
                "Name",
                PdfObject::String(utf8_bytes(page.layers[l].name().as_str()), StringFormat::Literal),
            );
            crate::pdf_object::add_entry(&mut entries, "Intent", PdfObject::Reference(intent_id));
            crate::pdf_object::add_entry(&mut entries, "Usage", PdfObject::Reference(usage_id));
            let ghost layer_name = page.spec_layers()[l as int].0;
            assert(page.layers@[l as int]@ == page.spec_layers()[l as int]);
            assert(crate::pdf_object::entries_model(entries@) =~= ocg_dictionary(layer_name, intent_id, usage_id));
            let ghost model_before = store.model();
            let ocg_dictionary_id = store.add_object(PdfObject::Dictionary(Dictionary::from_entries(entries)));
            proof {
                let part = page_ocg_objects(next, first, p as int, intent_id, usage_id);
                assert(next[p as int] == page);
                assert(part.take(l as int + 1) =~= part.take(l as int).push(part[l as int]));
                assert(store.model() =~= model_start + part.take(l as int + 1));
            }
            let ghost entries_before = indexed_objects(layer_entries@);
            layer_entries.push((l, PdfObject::Reference(ocg_dictionary_id)));
            let ghost references_before = crate::pdf_object::objects_model(references@);
            crate::pdf_object::add_item(&mut references, PdfObject::Reference(ocg_dictionary_id));
            proof {
                let refs = page_ocg_references(next, first, p as int);
                assert(refs.take(l as int + 1) =~= refs.take(l as int).push(refs[l as int]));
                assert(indexed_objects(layer_entries@) =~= entries_before.push(Obj::Reference(ocg_dictionary_id)));
                assert(crate::pdf_object::objects_model(references@) =~= references_start + refs.take(l as int + 1));
            }
            l = l + 1;
        }
        proof {
            let part = page_ocg_objects(next, first, p as int, intent_id, usage_id);
            let refs = page_ocg_references(next, first, p as int);
            assert(part.take(l as int) =~= part);
            assert(refs.take(l as int) =~= refs);
            assert(ocg_objects(next, first, intent_id, usage_id) == ocg_objects(taken, first, intent_id, usage_id) + part);
            assert(store.model() =~= start + ocg_objects(next, first, intent_id, usage_id));
            assert(ocg_references(next, first) == ocg_references(taken, first) + refs);
        }
        let ghost association_before = association@;
        association.push((page.number(), layer_entries));
        proof {
            assert forall|k: int| 0 <= k < next.len() implies {
                &&& (#[trigger] association@[k]).0 == next[k].spec_number()
                &&& association@[k].1@.len() == next[k].spec_layers().len()
                &&& forall|q: int| 0 <= q < association@[k].1@.len() ==> (#[trigger] association@[k].1@[q]).0 == q
                &&& indexed_objects(association@[k].1@) == page_ocg_references(next, first, k)
            } by {
                if k < p {
                    assert(association@[k] == association_before[k]);
                    assert(next[k] == taken[k]);
                    assert(next.take(k) =~= taken.take(k));
                    assert(page_ocg_references(next, first, k) =~= page_ocg_references(taken, first, k));
                } else {
                    assert(indexed_objects(layer_entries@) =~= page_ocg_references(next, first, p as int));
                }
            }
        }
        p = p + 1;
    }
    assert(pages@.take(p as int) =~= pages@);
    (association, references)
}

/// Entries set one after the other into a dictionary.
pub open spec fn set_all(dictionary: Seq<(Seq<u8>, Obj)>, entries: Seq<(Seq<u8>, Obj)>) -> Seq<(Seq<u8>, Obj)>
    decreases entries.len(),
{
    if entries.len() == 0 {
        dictionary
    } else {
        assoc_set(set_all(dictionary, entries.drop_last()), entries.last().0, entries.last().1)
    }
}

/// The box of a page: its lower left corner at the origin and its size.
pub open spec fn page_box(page: PdfPage) -> Obj {
    Obj::Array(seq![Obj::Integer(0), Obj::Integer(0), Obj::Real(page.spec_width()), Obj::Real(page.spec_height())])
}

/// The dictionary of a page: its type, rotation, boxes, annotations and parent, then its
/// extension, its resources and its contents.
pub open spec fn page_dictionary(page: PdfPage, pages_id: ObjectId, resources_id: ObjectId, contents_id: ObjectId) -> Seq<(Seq<u8>, Obj)> {
    assoc_set(
        assoc_set(extended_page_entries(page, pages_id), ascii("Resources"@), Obj::Reference(resources_id)),
        ascii("Contents"@),
        Obj::Reference(contents_id),
    )
}

/// The content stream of a page: the operations of its layers, each wrapped into the
/// marked content of its optional content group, one layer after the other.
pub open spec fn page_content(page: PdfPage) -> Obj {
    let layers = collected_layers(page.spec_layers(), page.spec_resources().len());
    Obj::Stream(Seq::empty(), ContentModel::Layers(Seq::new(layers.len(), |l: int| layers[l].1)), true)
}

/// The three objects stored for a page, from the object number `first_id` on: its
/// resource dictionary (the groups of its layers and the dictionary of fonts), its content
/// stream and its dictionary.
pub open spec fn page_objects(page: PdfPage, references: Seq<Obj>, first_id: int, pages_id: ObjectId, fonts_id: ObjectId) -> Seq<(ObjectId, Obj)> {
    let resources_id: ObjectId = (first_id as u32, 0u16);
    let contents_id: ObjectId = ((first_id + 1) as u32, 0u16);
    let page_id: ObjectId = ((first_id + 2) as u32, 0u16);
    seq![
        (resources_id, Obj::Dictionary(assoc_set(resource_entries(page.spec_resources(), references), ascii("Font"@), Obj::Reference(fonts_id)))),
        (contents_id, page_content(page)),
        (page_id, Obj::Dictionary(page_dictionary(page, pages_id, resources_id, contents_id))),
    ]
}

/// The objects stored for all pages, page after page, three object numbers each from
/// `first_id` on.
pub open spec fn pages_objects(pages: Seq<PdfPage>, first_ocg: int, first_id: int, pages_id: ObjectId, fonts_id: ObjectId) -> Seq<(ObjectId, Obj)>
    decreases pages.len(),
{
    if pages.len() == 0 {
        Seq::empty()
    } else {
        pages_objects(pages.drop_last(), first_ocg, first_id, pages_id, fonts_id) + page_objects(
            pages.last(),
            page_ocg_references(pages, first_ocg, pages.len() - 1),
            first_id + 3 * (pages.len() - 1),
            pages_id,
            fonts_id,
        )
    }
}

/// References to the dictionaries of `count` pages stored from the object number
/// `first_id` on.
pub open spec fn page_references(count: nat, first_id: int) -> Seq<Obj> {
    Seq::new(count, |k: int| Obj::Reference(((first_id + 3 * k + 2) as u32, 0u16)))
}

/// A page after its layers were written: the same page, its layers wrapped into their
/// optional content groups.
pub open spec fn is_written_page(after: PdfPage, before: PdfPage) -> bool {
    &&& after.spec_number() == before.spec_number()
    &&& after.spec_width() == before.spec_width()
    &&& after.spec_height() == before.spec_height()
    &&& after.spec_resources() == before.spec_resources()
    &&& after.spec_extension() == before.spec_extension()
    &&& after.spec_layers() == collected_layers(before.spec_layers(), before.spec_resources().len())
    &&& after.well_formed()
}

/// The references to the groups of the layers of page `k` are the same when looking at a
/// prefix of the pages that holds it.
proof fn lemma_page_ocg_references_prefix(pages: Seq<PdfPage>, first: int, n: int, k: int)
    requires
        0 <= k < n <= pages.len(),
    ensures
        page_ocg_references(pages.take(n), first, k) == page_ocg_references(pages, first, k),
{
    assert(pages.take(n).take(k) =~= pages.take(k));
    assert(page_ocg_references(pages.take(n), first, k) =~= page_ocg_references(pages, first, k));
}

/// Appends the operations of each stream of layers, one layer after the other.
fn merge_layer_streams(streams: Vec<PdfStream>) -> (merged: Vec<Vec<ContentOperation>>)
    requires
        forall|i: int|
            0 <= i < streams@.len() ==> (#[trigger] streams@[i]).content.model() is Layers
                && streams@[i].content.model()->Layers_0.len() == 1,
    ensures
        merged@.len() == streams@.len(),
        forall|i: int|
            0 <= i < merged@.len() ==> operations_model((#[trigger] merged@[i])@) == streams@[i].content.model()->Layers_0[0],
{
    let mut merged: Vec<Vec<ContentOperation>> = Vec::new();
    let mut rest = streams;
    let ghost all = rest@;
    let mut taken: usize = 0;
    assert(rest@ =~= all.skip(0));
    assert(all.len() == rest.len());
    while rest.len() > 0
        invariant
            taken + rest@.len() == all.len(),
            all.len() <= usize::MAX,
            rest@ == all.skip(taken as int),
            merged@.len() == taken,
            forall|i: int|
                0 <= i < all.len() ==> (#[trigger] all[i]).content.model() is Layers && all[i].content.model()->Layers_0.len() == 1,
            forall|i: int| 0 <= i < taken ==> operations_model((#[trigger] merged@[i])@) == all[i].content.model()->Layers_0[0],
        decreases rest.len(),
    {
        let stream = rest.remove(0);
        assert(stream == all[taken as int]);
        match stream.content {
            StreamContent::Layers(mut layers) => {
                merged.append(&mut layers);
            },
            StreamContent::Bytes(_) => {},
        }
        taken = taken + 1;
        assert(rest@ =~= all.skip(taken as int));
    }
    merged
}

/// The numbers in decimal, separated by `, `.
pub open spec fn joined_decimals(numbers: Seq<usize>) -> Seq<char>
    decreases numbers.len(),
{
    if numbers.len() == 0 {
        Seq::empty()
    } else if numbers.len() == 1 {
        decimal(numbers[0] as nat)
    } else {
        joined_decimals(numbers.drop_last()) + ", "@ + decimal(numbers.last() as nat)
    }
}

/// The characters of a list of numbers as `{:?}` writes it: `[a, b, c]`.
fn debug_list(numbers: &Vec<usize>) -> (text: Vec<char>)
    ensures
        text@ == "["@ + joined_decimals(numbers@) + "]"@,
{
    let mut text: Vec<char> = Vec::new();
    push_str(&mut text, "[");
    let mut i: usize = 0;
    assert(numbers@.take(0) =~= Seq::<usize>::empty());
    assert(text@ =~= "["@ + joined_decimals(numbers@.take(0)));
    while i < numbers.len()
        invariant
            i <= numbers@.len(),
            text@ == "["@ + joined_decimals(numbers@.take(i as int)),
        decreases numbers.len() - i,
    {
        let ghost before = text@;
        assert(numbers@.take(i as int + 1).drop_last() =~= numbers@.take(i as int));
        assert(numbers@.take(i as int + 1).last() == numbers@[i as int]);
        if i > 0 {
            push_str(&mut text, ", ");
        }
        let digits = decimal_chars(numbers[i] as u64);
        push_chars(&mut text, &digits);
        if i == 0 {
            assert(numbers@.take(1)[0] == numbers@[0]);
            assert(text@ =~= "["@ + joined_decimals(numbers@.take(1)));
        } else {
            assert(text@ =~= before + ", "@ + decimal(numbers@[i as int] as nat));
            assert(text@ =~= "["@ + joined_decimals(numbers@.take(i as int + 1)));
        }
        i = i + 1;
    }
    assert(numbers@.take(i as int) =~= numbers@);
    push_str(&mut text, "]");
    text
}

/// The dictionary of a page before its resources and contents are set: its type,
/// rotation, boxes, annotations and parent, then its extension.
pub open spec fn extended_page_entries(page: PdfPage, pages_id: ObjectId) -> Seq<(Seq<u8>, Obj)> {
    let base = seq![
        (ascii("Type"@), name("Page"@)),
        (ascii("Rotate"@), Obj::Integer(0)),
        (ascii("MediaBox"@), page_box(page)),
        (ascii("TrimBox"@), page_box(page)),
        (ascii("CropBox"@), page_box(page)),
        (ascii("Annots"@), Obj::Array(Seq::empty())),
        (ascii("Parent"@), Obj::Reference(pages_id)),
    ];
    match page.spec_extension() {
        Some(extension) => set_all(base, extension),
        None => base,
    }
}

/// Builds the dictionary of a page before its resources and contents are set.
fn base_page_dictionary(page: &PdfPage, pages_id: ObjectId) -> (d: Dictionary)
    ensures
        d.model() == extended_page_entries(*page, pages_id),
{
    let mut box_items: Vec<PdfObject> = crate::pdf_object::new_items();
    crate::pdf_object::add_item(&mut box_items, PdfObject::Integer(0));
    crate::pdf_object::add_item(&mut box_items, PdfObject::Integer(0));
    crate::pdf_object::add_item(&mut box_items, PdfObject::Real(page.width));
    crate::pdf_object::add_item(&mut box_items, PdfObject::Real(page.height));
    assert(crate::pdf_object::objects_model(box_items@) =~= seq![
        Obj::Integer(0),
        Obj::Integer(0),
        Obj::Real(page.spec_width()),
        Obj::Real(page.spec_height()),
    ]);
    let media_box = crate::pdf_object::array_object(box_items);
    let mut entries = crate::pdf_object::new_entries();
    crate::pdf_object::add_entry(&mut entries, "Type", crate::pdf_object::name_object("Page"));
    crate::pdf_object::add_entry(&mut entries, "Rotate", PdfObject::Integer(0));
    crate::pdf_object::add_entry(&mut entries, "MediaBox", media_box.duplicate());
    crate::pdf_object::add_entry(&mut entries, "TrimBox", media_box.duplicate());
    crate::pdf_object::add_entry(&mut entries, "CropBox", media_box);
    let empty_annotations = crate::pdf_object::array_object(crate::pdf_object::new_items());
    assert(empty_annotations.model() =~~= Obj::Array(Seq::empty()));
    crate::pdf_object::add_entry(&mut entries, "Annots", empty_annotations);
    crate::pdf_object::add_entry(&mut entries, "Parent", PdfObject::Reference(pages_id));
    let mut page_entries = Dictionary::from_entries(entries);
    let ghost base = page_entries.model();
    assert(base =~= seq![
        (ascii("Type"@), name("Page"@)),
        (ascii("Rotate"@), Obj::Integer(0)),
        (ascii("MediaBox"@), page_box(*page)),
        (ascii("TrimBox"@), page_box(*page)),
        (ascii("CropBox"@), page_box(*page)),
        (ascii("Annots"@), Obj::Array(Seq::empty())),
        (ascii("Parent"@), Obj::Reference(pages_id)),
    ]);
    if let Some(extension) = page.extension() {
        let ghost extension_model = extension.model();
        let mut rest = extension.entries;
        let ghost all = rest@;
        let mut taken: usize = 0;
        assert(rest@ =~= all.skip(0));
        assert(extension_model.take(0) =~= Seq::<(Seq<u8>, Obj)>::empty());
        while rest.len() > 0
            invariant
                taken + rest@.len() == all.len(),
                all.len() <= usize::MAX,
                rest@ == all.skip(taken as int),
                extension_model.len() == all.len(),
                forall|j: int| 0 <= j < all.len() ==> #[trigger] extension_model[j] == (all[j].0@, all[j].1.model()),
                page_entries.model() == set_all(base, extension_model.take(taken as int)),
            decreases rest.len(),
        {
            let entry = rest.remove(0);
            assert(entry == all[taken as int]);
            page_entries.set(entry.0, entry.1);
            assert(extension_model.take(taken as int + 1).drop_last() =~= extension_model.take(taken as int));
            taken = taken + 1;
            assert(rest@ =~= all.skip(taken as int));
        }
        assert(extension_model.take(taken as int) =~= extension_model);
    }
    page_entries
}

/// Finds the entry of the association that stands for the page at an index: the one with
/// the page's number, the index plus one.
fn find_association_entry(association: &Vec<(usize, Vec<(usize, PdfObject)>)>, index: usize, pages: Ghost<Seq<PdfPage>>, first_ocg: Ghost<int>) -> (r: Result<usize, ContextError>)
    requires
        is_ocg_association(association@, pages@, first_ocg@),
        pages_well_formed(pages@),
        index < pages@.len(),
    ensures
        r == Ok::<usize, ContextError>(index),
{
    let mut position: usize = 0;
    let mut found = false;
    while position < association.len() && !found
        invariant
            position <= association@.len(),
            is_ocg_association(association@, pages@, first_ocg@),
            pages_well_formed(pages@),
            index < pages@.len(),
            found ==> position < association@.len() && association@[position as int].0 == index + 1,
            !found ==> forall|j: int| 0 <= j < position ==> #[trigger] association@[j].0 != index + 1,
        decreases association@.len() - position + (if found { 0int } else { 1int }),
    {
        assert(association@[position as int].0 == pages@[position as int].spec_number());
        if association[position].0 - 1 == index {
            found = true;
        } else {
            position = position + 1;
        }
    }
    if !found {
        proof {
            assert(association@[index as int].0 == index + 1);
        }
        let mut comparisons: Vec<usize> = Vec::new();
        let mut j: usize = 0;
        while j < association.len()
            decreases association@.len() - j,
        {
            comparisons.push(association[j].0);
            j = j + 1;
        }
        let mut text = str_chars("Unable to collect the resources needed for rendering the page: can't find ");
        let digits = decimal_chars(index as u64);
        push_chars(&mut text, &digits);
        push_str(&mut text, " in ");
        let list = debug_list(&comparisons);
        push_chars(&mut text, &list);
        return Err(ContextError::with_context(chars_to_string(&text)));
    }
    assert(association@[position as int].0 == pages@[position as int].spec_number());
    Ok(position)
}

/// Stores the resource dictionary, the content stream and the dictionary of a page,
/// wrapping its layers into their optional content groups (the objects of the given
/// pairs). Returns a reference to the page's dictionary.
fn add_page_objects(
    store: &mut ObjectStore,
    page: &mut PdfPage,
    layers: &Vec<(usize, PdfObject)>,
    pages_id: ObjectId,
    fonts_id: ObjectId,
) -> (r: Result<PdfObject, ContextError>)
    requires
        old(store).well_formed(),
        old(store).max_id + 3 <= u32::MAX,
        old(page).well_formed(),
        layers@.len() == old(page).spec_layers().len(),
    ensures
        r matches Ok(reference) && reference.model() == Obj::Reference(((old(store).max_id + 3) as u32, 0u16)),
        final(store).well_formed(),
        final(store).max_id == old(store).max_id + 3,
        final(store).model() == old(store).model() + page_objects(
            *old(page),
            indexed_objects(layers@),
            old(store).max_id + 1,
            pages_id,
            fonts_id,
        ),
        final(store).trailer == old(store).trailer,
        final(store).version == old(store).version,
        is_written_page(*final(page), *old(page)),
        forall|k: ObjectId|
            #[trigger] has_key(final(store).model(), k) ==> has_key(old(store).model(), k) || k.0 > old(store).max_id,
{
    let ghost page_before = *page;
    let ghost first_id = store.max_id + 1;
    let ghost start = store.model();
    let mut page_entries = base_page_dictionary(page, pages_id);
    let collected = page.collect_resources_and_streams(layers);
    let (mut resource_dictionary, layer_streams) = match collected {
        Ok(result) => result,
        Err(error) => {
            return Err(error);
        },
    };
    resource_dictionary.set(ascii_bytes("Font"), PdfObject::Reference(fonts_id));
    let resources_page_id = store.add_object(PdfObject::Dictionary(resource_dictionary));
    page_entries.set(ascii_bytes("Resources"), PdfObject::Reference(resources_page_id));
    let merged = merge_layer_streams(layer_streams);
    let content = StreamContent::Layers(merged);
    proof {
        let collected_model = collected_layers(page_before.spec_layers(), page_before.spec_resources().len());
        assert(content.model() =~~= ContentModel::Layers(Seq::new(collected_model.len(), |l: int| collected_model[l].1)));
    }
    let merged_layer_stream = PdfObject::Stream(PdfStream { dict: Dictionary::new(), content, allows_compression: true });
    assert(merged_layer_stream.model() == page_content(page_before));
    let page_content_id = store.add_object(merged_layer_stream);
    page_entries.set(ascii_bytes("Contents"), PdfObject::Reference(page_content_id));
    let page_id = store.add_object(PdfObject::Dictionary(page_entries));
    proof {
        assert(store.model() =~~= start + page_objects(page_before, indexed_objects(layers@), first_id, pages_id, fonts_id));
    }
    Ok(PdfObject::Reference(page_id))
}

/// Stores, for each page, its resource dictionary, its content stream and its dictionary,
/// wrapping the layers of the page into their optional content groups on the way. The
/// association gives the groups of the layers of each page, found by the page's number.
/// Returns references to the dictionaries of the pages.
pub fn add_pages_objects(
    store: &mut ObjectStore,
    pages: &mut Vec<PdfPage>,
    association: &Vec<(usize, Vec<(usize, PdfObject)>)>,
    first_ocg: Ghost<int>,
    pages_id: ObjectId,
    fonts_id: ObjectId,
) -> (r: Result<Vec<PdfObject>, ContextError>)
    requires
        old(store).well_formed(),
        old(store).max_id + 3 * old(pages)@.len() <= u32::MAX,
        pages_well_formed(old(pages)@),
        is_ocg_association(association@, old(pages)@, first_ocg@),
    ensures
        r is Ok,
        final(store).well_formed(),
        final(store).max_id == old(store).max_id + 3 * old(pages)@.len(),
        final(store).model() == old(store).model() + pages_objects(old(pages)@, first_ocg@, old(store).max_id + 1, pages_id, fonts_id),
        final(store).trailer == old(store).trailer,
        final(store).version == old(store).version,
        final(pages)@.len() == old(pages)@.len(),
        forall|k: int| 0 <= k < old(pages)@.len() ==> #[trigger] is_written_page(final(pages)@[k], old(pages)@[k]),
        r matches Ok(ids) ==> crate::pdf_object::objects_model(ids@) == page_references(old(pages)@.len(), old(store).max_id + 1),
        forall|k: ObjectId|
            #[trigger] has_key(final(store).model(), k) ==> has_key(old(store).model(), k) || k.0 > old(store).max_id,
{
    let ghost old_pages = pages@;
    let ghost start = store.model();
    let ghost first_id = store.max_id + 1;
    let ghost old_max = store.max_id;
    let mut page_ids: Vec<PdfObject> = crate::pdf_object::new_items();
    let mut index: usize = 0;
    while index < pages.len()
        invariant
            index <= pages@.len(),
            pages@.len() == old_pages.len(),
            old_pages == old(pages)@,
            first_id == old_max + 1,
            old_max == old(store).max_id,
            start == old(store).model(),
            old_max + 3 * old_pages.len() <= u32::MAX,
            pages_well_formed(old_pages),
            is_ocg_association(association@, old_pages, first_ocg@),
            store.well_formed(),
            store.max_id == old_max + 3 * index,
            store.model() == start + pages_objects(old_pages.take(index as int), first_ocg@, first_id, pages_id, fonts_id),
            store.trailer == old(store).trailer,
            store.version == old(store).version,
            forall|k: int| 0 <= k < index ==> #[trigger] is_written_page(pages@[k], old_pages[k]),
            forall|k: int| index <= k < pages@.len() ==> #[trigger] pages@[k] == old_pages[k],
            crate::pdf_object::objects_model(page_ids@) == page_references(index as nat, first_id),
            forall|k: ObjectId| #[trigger] has_key(store.model(), k) ==> has_key(start, k) || k.0 > old_max,
        decreases pages@.len() - index,
    {
        let ghost page_before = old_pages[index as int];
        assert(pages@[index as int] == page_before);
        let position = find_association_entry(association, index, Ghost(old_pages), first_ocg)?;
        let entry = &association[position];
        let ghost references = page_ocg_references(old_pages, first_ocg@, index as int);
        assert(indexed_objects(entry.1@) == references);
        let mut page = pages.remove(index);
        let ghost previous = store.model();
        let ghost previous_pages = pages@;
        let added = add_page_objects(store, &mut page, &entry.1, pages_id, fonts_id);
        let reference = match added {
            Ok(reference) => reference,
            Err(error) => {
                pages.insert(index, page);
                return Err(error);
            },
        };
        pages.insert(index, page);
        crate::pdf_object::add_item(&mut page_ids, reference);
        proof {
            let taken = old_pages.take(index as int);
            let next = old_pages.take(index as int + 1);
            assert(next.drop_last() =~= taken);
            assert(next.last() == page_before);
            lemma_page_ocg_references_prefix(old_pages, first_ocg@, index as int + 1, index as int);
            assert(pages_objects(next, first_ocg@, first_id, pages_id, fonts_id) == pages_objects(taken, first_ocg@, first_id, pages_id, fonts_id) + page_objects(page_before, references, first_id + 3 * index, pages_id, fonts_id));
            assert(store.model() =~= start + pages_objects(next, first_ocg@, first_id, pages_id, fonts_id));
            assert(crate::pdf_object::objects_model(page_ids@) =~= page_references(index as nat + 1, first_id));
            assert forall|k: int| 0 <= k < index + 1 implies #[trigger] is_written_page(pages@[k], old_pages[k]) by {
                if k == index {
                    assert(pages@[k] == page);
                } else {
                    assert(pages@[k] == previous_pages[k]);
                }
            }
            assert forall|k: int| index + 1 <= k < pages@.len() implies #[trigger] pages@[k] == old_pages[k] by {
                assert(pages@[k] == previous_pages[k - 1]);
            }
        }
        index = index + 1;
    }
    assert(old_pages.take(index as int) =~= old_pages);
    Ok(page_ids)
}

/// The layers of the first `p + 1` pages are those of the first `p` pages and those of
/// page `p`.
proof fn lemma_layer_total_prefix(pages: Seq<PdfPage>, p: int)
    requires
        0 <= p < pages.len(),
    ensures
        layer_total(pages.take(p + 1)) == layer_total(pages.take(p)) + pages[p].spec_layers().len(),
        layer_total(pages.take(p + 1)) <= layer_total(pages),
{
    assert(pages.take(p + 1).drop_last() =~= pages.take(p));
    lemma_layer_total_monotonic(pages, p + 1);
}

/// The layers of a prefix of the pages are at most those of all pages.
proof fn lemma_layer_total_monotonic(pages: Seq<PdfPage>, n: int)
    requires
        0 <= n <= pages.len(),
    ensures
        layer_total(pages.take(n)) <= layer_total(pages),
    decreases pages.len() - n,
{
    if n < pages.len() {
        lemma_layer_total_monotonic(pages, n + 1);
        assert(pages.take(n + 1).drop_last() =~= pages.take(n));
    } else {
        assert(pages.take(n) =~= pages);
    }
}

/// The information dictionary of a document: trapping, dates, version of PDF/X, title,
/// author, creator, producer, subject, identifier and keywords.
pub open spec fn document_info(identifier: Seq<char>, timestamp: Seq<char>) -> Seq<(Seq<u8>, Obj)> {
    seq![
        (ascii("Trapped"@), name("False"@)),
        (ascii("CreationDate"@), literal(timestamp)),
        (ascii("ModDate"@), literal(timestamp)),
        (ascii("GTS_PDFX_Version"@), literal("PDF/A-3:2012"@)),
        (ascii("Title"@), literal("Unknown"@)),
        (ascii("Author"@), literal("Unknown"@)),
        (ascii("Creator"@), literal("Unknown"@)),
        (ascii("Producer"@), literal("Unknown"@)),
        (ascii("Subject"@), literal("Unknown"@)),
        (ascii("Identifier"@), literal(identifier)),
        (ascii("Keywords"@), literal(""@)),
    ]
}

/// The dictionary that describes the usage of the optional content groups.
pub open spec fn ocg_usage() -> Seq<(Seq<u8>, Obj)> {
    seq![
        (ascii("Type"@), name("OCG"@)),
        (
            ascii("CreatorInfo"@),
            Obj::Dictionary(seq![(ascii("Creator"@), literal("Adobe Illustrator 14.0"@)), (ascii("Subtype"@), name("Artwork"@))]),
        ),
    ]
}

/// The array of the intents of the optional content groups.
pub open spec fn intent_array() -> Obj {
    Obj::Array(seq![name("View"@), name("Design"@)])
}

/// The catalog of a document: its pages and its optional content groups, all of them
/// listed, ordered and on (set after the other entries).
pub open spec fn catalog(pages_id: ObjectId, references: Seq<Obj>) -> Seq<(Seq<u8>, Obj)> {
    assoc_set(
        seq![
            (ascii("Type"@), name("Catalog"@)),
            (ascii("PageLayout"@), name("OneColumn"@)),
            (ascii("PageMode"@), name("UseNone"@)),
            (ascii("Pages"@), Obj::Reference(pages_id)),
        ],
        ascii("OCProperties"@),
        Obj::Dictionary(
            seq![
                (ascii("OCGs"@), Obj::Array(references)),
                (
                    ascii("D"@),
                    Obj::Dictionary(
                        seq![
                            (ascii("Order"@), Obj::Array(references)),
                            (ascii("RBGroups"@), Obj::Array(Seq::empty())),
                            (ascii("ON"@), Obj::Array(references)),
                        ],
                    ),
                ),
            ],
        ),
    )
}

/// The dictionary of the pages: their number, then the references to them (set after the
/// other entries).
pub open spec fn pages_dictionary(count: nat, kids: Seq<Obj>) -> Seq<(Seq<u8>, Obj)> {
    assoc_set(
        seq![(ascii("Type"@), name("Pages"@)), (ascii("Count"@), Obj::Integer(count as int))],
        ascii("Kids"@),
        Obj::Array(kids),
    )
}

/// The trailer after the document was written: its root (the catalog), its information
/// dictionary and its `ID` (the identifier of the document and that of the instance).
pub open spec fn written_trailer(
    trailer: Seq<(Seq<u8>, Obj)>,
    catalog_id: ObjectId,
    info_id: ObjectId,
    identifier: Seq<char>,
    instance_id: Seq<char>,
) -> Seq<(Seq<u8>, Obj)> {
    assoc_set(
        assoc_set(assoc_set(trailer, ascii("Root"@), Obj::Reference(catalog_id)), ascii("Info"@), Obj::Reference(info_id)),
        ascii("ID"@),
        Obj::Array(seq![literal(identifier), literal(instance_id)]),
    )
}

/// The objects that writing a document stores before its fonts, given the largest object
/// number `m` before: the information dictionary (number `m + 1`; `m + 2` is given out
/// for the dictionary of pages), the usage of the optional content groups and their
/// intents, the groups of all layers, and the catalog.
pub open spec fn written_front(pages: Seq<PdfPage>, identifier: Seq<char>, m: int) -> Seq<(ObjectId, Obj)> {
    let info_id: ObjectId = ((m + 1) as u32, 0u16);
    let pages_id: ObjectId = ((m + 2) as u32, 0u16);
    let usage_id: ObjectId = ((m + 3) as u32, 0u16);
    let intent_id: ObjectId = ((m + 4) as u32, 0u16);
    let catalog_id: ObjectId = ((m + 5 + layer_total(pages)) as u32, 0u16);
    seq![
        (info_id, Obj::Dictionary(document_info(identifier, pdf_timestamp(unix_epoch_timestamp())))),
        (usage_id, Obj::Dictionary(ocg_usage())),
        (intent_id, intent_array()),
    ] + ocg_objects(pages, m + 5, intent_id, usage_id) + seq![(catalog_id, Obj::Dictionary(catalog(pages_id, ocg_references(pages, m + 5))))]
}

/// The objects that writing a document stores after its fonts, given the largest object
/// number `m` before, the number of fonts and the entries of the dictionary of fonts: the
/// dictionary of fonts, the objects of each page, and the dictionary of pages.
pub open spec fn written_back(pages: Seq<PdfPage>, m: int, font_count: nat, fonts_entries: Seq<(Seq<u8>, Obj)>) -> Seq<
    (ObjectId, Obj),
> {
    let pages_id: ObjectId = ((m + 2) as u32, 0u16);
    let total = layer_total(pages);
    let fonts_id: ObjectId = ((m + 6 + total + 3 * font_count) as u32, 0u16);
    let first_page_id = m + 7 + total + 3 * font_count;
    seq![(fonts_id, Obj::Dictionary(fonts_entries))] + pages_objects(pages, m + 5, first_page_id, pages_id, fonts_id) + seq![
        (pages_id, Obj::Dictionary(pages_dictionary(pages.len(), page_references(pages.len(), first_page_id)))),
    ]
}

/// The objects of a store after a document was written into it (the largest object
/// number being `m` before): the objects it held and those of `written_front`; then the
/// objects of the fonts, inserted in the order of their keys and stored one after the
/// other, each font's dictionary replacing what the number given out for it holds (the
/// dictionary of an earlier writing, if any); then those of `written_back`.
pub open spec fn is_written_store(
    fonts: Seq<(ObjectId, Font)>,
    pages: Seq<PdfPage>,
    identifier: Seq<char>,
    m: int,
    before: Seq<(ObjectId, Obj)>,
    after: Seq<(ObjectId, Obj)>,
) -> bool {
    exists|order: Seq<usize>, fonts_part: Seq<(ObjectId, Obj)>|
        {
            &&& #[trigger] is_key_order(order, fonts.len())
            &&& #[trigger] is_fonts_insertion(fonts, order, (m + 5 + layer_total(pages)) as u32, fonts_part)
            &&& after == stored(before + written_front(pages, identifier, m), fonts_part) + written_back(
                pages,
                m,
                fonts.len(),
                fonts_dictionary_entries(fonts, order),
            )
        }
}

/// The dictionary of a page without extension holds its boxes: its media, trim and crop
/// boxes all have their lower left corner at the origin, then the page's width, then its
/// height.
proof fn lemma_page_dictionary_boxes(page: PdfPage, pages_id: ObjectId, resources_id: ObjectId, contents_id: ObjectId)
    requires
        page.spec_extension() is None,
    ensures
        ({
            let d = page_dictionary(page, pages_id, resources_id, contents_id);
            let size = Obj::Array(seq![Obj::Integer(0), Obj::Integer(0), Obj::Real(page.spec_width()), Obj::Real(page.spec_height())]);
            &&& assoc_get(d, ascii("MediaBox"@)) == Some(size)
            &&& assoc_get(d, ascii("TrimBox"@)) == Some(size)
            &&& assoc_get(d, ascii("CropBox"@)) == Some(size)
        }),
{
    reveal_strlit("MediaBox");
    reveal_strlit("TrimBox");
    reveal_strlit("CropBox");
    reveal_strlit("Annots");
    reveal_strlit("Parent");
    reveal_strlit("Resources");
    reveal_strlit("Contents");
    let base = extended_page_entries(page, pages_id);
    let size = Obj::Array(seq![Obj::Integer(0), Obj::Integer(0), Obj::Real(page.spec_width()), Obj::Real(page.spec_height())]);
    let media = ascii("MediaBox"@);
    let trim = ascii("TrimBox"@);
    let crop = ascii("CropBox"@);
    let annots = ascii("Annots"@);
    let parent = ascii("Parent"@);
    let resources = ascii("Resources"@);
    let contents = ascii("Contents"@);
    assert(media.len() == 8 && trim.len() == 7 && crop.len() == 7 && annots.len() == 6 && parent.len() == 6);
    assert(resources.len() == 9 && contents.len() == 8);
    assert(media[0] == 77u8 && contents[0] == 67u8 && trim[0] == 84u8 && crop[0] == 67u8);
    assert(media != contents) by {
        assert(media[0] != contents[0]);
    }
    assert(trim != crop) by {
        assert(trim[0] != crop[0]);
    }
    assert(base[2] == (media, size));
    assert(base[3] == (trim, size));
    assert(base[4] == (crop, size));
    assert(base[5].0 == annots && base[6].0 == parent && base.len() == 7);
    lemma_assoc_get_at(base, 2);
    lemma_assoc_get_at(base, 3);
    lemma_assoc_get_at(base, 4);
    let with_resources = assoc_set(base, resources, Obj::Reference(resources_id));
    lemma_assoc_set_get(base, resources, Obj::Reference(resources_id), media);
    lemma_assoc_set_get(base, resources, Obj::Reference(resources_id), trim);
    lemma_assoc_set_get(base, resources, Obj::Reference(resources_id), crop);
    lemma_assoc_set_get(with_resources, contents, Obj::Reference(contents_id), media);
    lemma_assoc_set_get(with_resources, contents, Obj::Reference(contents_id), trim);
    lemma_assoc_set_get(with_resources, contents, Obj::Reference(contents_id), crop);
}

/// The three objects stored for page `k` among those of all pages.
proof fn lemma_pages_objects_at(pages: Seq<PdfPage>, first_ocg: int, first_id: int, pages_id: ObjectId, fonts_id: ObjectId, k: int)
    requires
        0 <= k < pages.len(),
    ensures
        pages_objects(pages, first_ocg, first_id, pages_id, fonts_id).len() == 3 * pages.len(),
        pages_objects(pages, first_ocg, first_id, pages_id, fonts_id).subrange(3 * k, 3 * k + 3) == page_objects(
            pages[k],
            page_ocg_references(pages, first_ocg, k),
            first_id + 3 * k,
            pages_id,
            fonts_id,
        ),
    decreases pages.len(),
{
    let n = pages.len() as int;
    let rest = pages.drop_last();
    let all = pages_objects(pages, first_ocg, first_id, pages_id, fonts_id);
    let front = pages_objects(rest, first_ocg, first_id, pages_id, fonts_id);
    if k < n - 1 {
        lemma_pages_objects_at(rest, first_ocg, first_id, pages_id, fonts_id, k);
        assert(rest =~= pages.take(n - 1));
        lemma_page_ocg_references_prefix(pages, first_ocg, n - 1, k);
        assert(rest[k] == pages[k]);
        assert(all.subrange(3 * k, 3 * k + 3) =~= front.subrange(3 * k, 3 * k + 3));
    } else {
        if n > 1 {
            lemma_pages_objects_at(rest, first_ocg, first_id, pages_id, fonts_id, n - 2);
        } else {
            assert(front =~= Seq::<(ObjectId, Obj)>::empty());
        }
        assert(all.subrange(3 * k, 3 * k + 3) =~= page_objects(
            pages[k],
            page_ocg_references(pages, first_ocg, k),
            first_id + 3 * k,
            pages_id,
            fonts_id,
        ));
    }
}

/// After a document was written, the dictionary of each page (without extension) is
/// stored under its object number, and its media, trim and crop boxes are
/// `[0 0 width height]`: the width and then the height of that page.
pub proof fn lemma_written_page_boxes(
    fonts: Seq<(ObjectId, Font)>,
    pages: Seq<PdfPage>,
    identifier: Seq<char>,
    m: int,
    before: Seq<(ObjectId, Obj)>,
    after: Seq<(ObjectId, Obj)>,
    k: int,
)
    requires
        is_written_store(fonts, pages, identifier, m, before, after),
        0 <= k < pages.len(),
        pages[k].spec_extension() is None,
    ensures
        exists|i: int|
            0 <= i < after.len() && #[trigger] after[i].0 == ((m + 7 + layer_total(pages) + 3 * fonts.len() + 3 * k + 2) as u32, 0u16)
                && (after[i].1 matches Obj::Dictionary(d) && {
                let size = Obj::Array(
                    seq![Obj::Integer(0), Obj::Integer(0), Obj::Real(pages[k].spec_width()), Obj::Real(pages[k].spec_height())],
                );
                &&& assoc_get(d, ascii("MediaBox"@)) == Some(size)
                &&& assoc_get(d, ascii("TrimBox"@)) == Some(size)
                &&& assoc_get(d, ascii("CropBox"@)) == Some(size)
            }),
{
    let (order, fonts_part) = choose|order: Seq<usize>, fonts_part: Seq<(ObjectId, Obj)>|
        {
            &&& #[trigger] is_key_order(order, fonts.len())
            &&& #[trigger] is_fonts_insertion(fonts, order, (m + 5 + layer_total(pages)) as u32, fonts_part)
            &&& after == stored(before + written_front(pages, identifier, m), fonts_part) + written_back(
                pages,
                m,
                fonts.len(),
                fonts_dictionary_entries(fonts, order),
            )
        };
    let front = stored(before + written_front(pages, identifier, m), fonts_part);
    let pages_id: ObjectId = ((m + 2) as u32, 0u16);
    let total = layer_total(pages);
    let fonts_id: ObjectId = ((m + 6 + total + 3 * fonts.len()) as u32, 0u16);
    let first_page_id = m + 7 + total + 3 * fonts.len();
    let objects = pages_objects(pages, m + 5, first_page_id, pages_id, fonts_id);
    lemma_pages_objects_at(pages, m + 5, first_page_id, pages_id, fonts_id, k);
    let resources_id: ObjectId = ((first_page_id + 3 * k) as u32, 0u16);
    let contents_id: ObjectId = ((first_page_id + 3 * k + 1) as u32, 0u16);
    lemma_page_dictionary_boxes(pages[k], pages_id, resources_id, contents_id);
    let i = front.len() + 1 + 3 * k + 2;
    let back = written_back(pages, m, fonts.len(), fonts_dictionary_entries(fonts, order));
    assert(objects[3 * k + 2] == objects.subrange(3 * k, 3 * k + 3)[2]);
    assert(objects[3 * k + 2] == (
        ((first_page_id + 3 * k + 2) as u32, 0u16),
        Obj::Dictionary(page_dictionary(pages[k], pages_id, resources_id, contents_id)),
    ));
    assert(back[1 + 3 * k + 2] == objects[3 * k + 2]);
    assert(after[i] == back[1 + 3 * k + 2]);
    assert(after[i].0 == ((m + 7 + layer_total(pages) + 3 * fonts.len() + 3 * k + 2) as u32, 0u16));
}

/// Writing a document is deterministic: the objects of a store after a document was
/// written into it are determined by the document (its fonts, pages and identifier) and
/// by the store before, so that a document written twice gives the same objects.
pub proof fn lemma_written_store_unique(
    fonts: Seq<(ObjectId, Font)>,
    pages: Seq<PdfPage>,
    identifier: Seq<char>,
    m: int,
    before: Seq<(ObjectId, Obj)>,
    after_a: Seq<(ObjectId, Obj)>,
    after_b: Seq<(ObjectId, Obj)>,
)
    requires
        is_written_store(fonts, pages, identifier, m, before, after_a),
        is_written_store(fonts, pages, identifier, m, before, after_b),
    ensures
        after_a == after_b,
{
    let (order_a, part_a) = choose|order: Seq<usize>, fonts_part: Seq<(ObjectId, Obj)>|
        {
            &&& #[trigger] is_key_order(order, fonts.len())
            &&& #[trigger] is_fonts_insertion(fonts, order, (m + 5 + layer_total(pages)) as u32, fonts_part)
            &&& after_a == stored(before + written_front(pages, identifier, m), fonts_part) + written_back(
                pages,
                m,
                fonts.len(),
                fonts_dictionary_entries(fonts, order),
            )
        };
    let (order_b, part_b) = choose|order: Seq<usize>, fonts_part: Seq<(ObjectId, Obj)>|
        {
            &&& #[trigger] is_key_order(order, fonts.len())
            &&& #[trigger] is_fonts_insertion(fonts, order, (m + 5 + layer_total(pages)) as u32, fonts_part)
            &&& after_b == stored(before + written_front(pages, identifier, m), fonts_part) + written_back(
                pages,
                m,
                fonts.len(),
                fonts_dictionary_entries(fonts, order),
            )
        };
    lemma_written_fonts_unique(fonts, (m + 5 + layer_total(pages)) as u32, order_a, part_a, order_b, part_b);
}

/// Stores the information dictionary of a document, gives out the object number of its
/// dictionary of pages, and stores the usage and the intents of its optional content
/// groups. Returns the identifiers of these four, in this order.
#[verifier::rlimit(30)]
fn write_prelude(store: &mut ObjectStore, identifier: &String) -> (ids: (ObjectId, ObjectId, ObjectId, ObjectId))
    requires
        old(store).well_formed(),
        old(store).max_id + 4 <= u32::MAX,
    ensures
        final(store).well_formed(),
        final(store).max_id == old(store).max_id + 4,
        ids == (
            ((old(store).max_id + 1) as u32, 0u16),
            ((old(store).max_id + 2) as u32, 0u16),
            ((old(store).max_id + 3) as u32, 0u16),
            ((old(store).max_id + 4) as u32, 0u16),
        ),
        final(store).model() == old(store).model() + seq![
            (ids.0, Obj::Dictionary(document_info(identifier@, pdf_timestamp(unix_epoch_timestamp())))),
            (ids.2, Obj::Dictionary(ocg_usage())),
            (ids.3, intent_array()),
        ],
        final(store).trailer == old(store).trailer,
        final(store).version == old(store).version,
        forall|k: ObjectId|
            #[trigger] has_key(final(store).model(), k) ==> has_key(old(store).model(), k) || k.0 > old(store).max_id,
        !has_key(final(store).model(), ids.1),
{
    let ghost start = store.model();
    let ghost m = store.max_id;
    let timestamp = to_pdf_timestamp_format(&unix_epoch());
    let mut info = crate::pdf_object::new_entries();
    crate::pdf_object::add_entry(&mut info, "Trapped", crate::pdf_object::name_object("False"));
    crate::pdf_object::add_entry(&mut info, "CreationDate", literal_object(timestamp.as_str()));
    crate::pdf_object::add_entry(&mut info, "ModDate", literal_object(timestamp.as_str()));
    crate::pdf_object::add_entry(&mut info, "GTS_PDFX_Version", literal_object("PDF/A-3:2012"));
    crate::pdf_object::add_entry(&mut info, "Title", literal_object("Unknown"));
    crate::pdf_object::add_entry(&mut info, "Author", literal_object("Unknown"));
    crate::pdf_object::add_entry(&mut info, "Creator", literal_object("Unknown"));
    crate::pdf_object::add_entry(&mut info, "Producer", literal_object("Unknown"));
    crate::pdf_object::add_entry(&mut info, "Subject", literal_object("Unknown"));
    crate::pdf_object::add_entry(&mut info, "Identifier", literal_object(identifier.as_str()));
    crate::pdf_object::add_entry(&mut info, "Keywords", literal_object(""));
    assert(crate::pdf_object::entries_model(info@) =~= document_info(identifier@, pdf_timestamp(unix_epoch_timestamp())));
    let document_info_id = store.add_object(PdfObject::Dictionary(Dictionary::from_entries(info)));
    let pages_id = store.new_object_id();
    let mut creator_entries = crate::pdf_object::new_entries();
    crate::pdf_object::add_entry(&mut creator_entries, "Creator", literal_object("Adobe Illustrator 14.0"));
    crate::pdf_object::add_entry(&mut creator_entries, "Subtype", crate::pdf_object::name_object("Artwork"));
    assert(crate::pdf_object::entries_model(creator_entries@) =~= seq![
        (ascii("Creator"@), literal("Adobe Illustrator 14.0"@)),
        (ascii("Subtype"@), name("Artwork"@)),
    ]);
    let creator_info = Dictionary::from_entries(creator_entries);
    let mut usage_entries = crate::pdf_object::new_entries();
    crate::pdf_object::add_entry(&mut usage_entries, "Type", crate::pdf_object::name_object("OCG"));
    crate::pdf_object::add_entry(&mut usage_entries, "CreatorInfo", PdfObject::Dictionary(creator_info));
    assert(crate::pdf_object::entries_model(usage_entries@) =~= ocg_usage());
    let usage_id = store.add_object(PdfObject::Dictionary(Dictionary::from_entries(usage_entries)));
    let mut intents = crate::pdf_object::new_items();
    crate::pdf_object::add_item(&mut intents, crate::pdf_object::name_object("View"));
    crate::pdf_object::add_item(&mut intents, crate::pdf_object::name_object("Design"));
    assert(crate::pdf_object::objects_model(intents@) =~= seq![name("View"@), name("Design"@)]);
    let intent_array_object = crate::pdf_object::array_object(intents);
    let intent_id = store.add_object(intent_array_object);
    proof {
        assert(store.model() =~= start + seq![
            (document_info_id, Obj::Dictionary(document_info(identifier@, pdf_timestamp(unix_epoch_timestamp())))),
            (usage_id, Obj::Dictionary(ocg_usage())),
            (intent_id, intent_array()),
        ]);
        assert(!has_key(start, pages_id)) by {
            if has_key(start, pages_id) {
                let j = choose|j: int| 0 <= j < start.len() && #[trigger] start[j].0 == pages_id;
                assert(start[j].0 == old(store).objects[j].0);
            }
        }
    }
    (document_info_id, pages_id, usage_id, intent_id)
}

/// The catalog of a document with the given dictionary of pages and references to its
/// optional content groups.
fn catalog_dictionary(pages_id: ObjectId, references: Vec<PdfObject>) -> (d: Dictionary)
    ensures
        d.model() == catalog(pages_id, crate::pdf_object::objects_model(references@)),
{
    let ghost refs = crate::pdf_object::objects_model(references@);
    let mut catalog_entries = crate::pdf_object::new_entries();
    crate::pdf_object::add_entry(&mut catalog_entries, "Type", crate::pdf_object::name_object("Catalog"));
    crate::pdf_object::add_entry(&mut catalog_entries, "PageLayout", crate::pdf_object::name_object("OneColumn"));
    crate::pdf_object::add_entry(&mut catalog_entries, "PageMode", crate::pdf_object::name_object("UseNone"));
    crate::pdf_object::add_entry(&mut catalog_entries, "Pages", PdfObject::Reference(pages_id));
    assert(crate::pdf_object::entries_model(catalog_entries@) =~= seq![
        (ascii("Type"@), name("Catalog"@)),
        (ascii("PageLayout"@), name("OneColumn"@)),
        (ascii("PageMode"@), name("UseNone"@)),
        (ascii("Pages"@), Obj::Reference(pages_id)),
    ]);
    let mut catalog_dictionary = Dictionary::from_entries(catalog_entries);
    let mut default_entries = crate::pdf_object::new_entries();
    crate::pdf_object::add_entry(&mut default_entries, "Order", crate::pdf_object::array_object(duplicate_items(&references)));
    let empty_groups = crate::pdf_object::array_object(crate::pdf_object::new_items());
    assert(empty_groups.model() =~~= Obj::Array(Seq::empty()));
    crate::pdf_object::add_entry(&mut default_entries, "RBGroups", empty_groups);
    crate::pdf_object::add_entry(&mut default_entries, "ON", crate::pdf_object::array_object(duplicate_items(&references)));
    assert(crate::pdf_object::entries_model(default_entries@) =~= seq![
        (ascii("Order"@), Obj::Array(refs)),
        (ascii("RBGroups"@), Obj::Array(Seq::empty())),
        (ascii("ON"@), Obj::Array(refs)),
    ]);
    let default_dictionary = Dictionary::from_entries(default_entries);
    let ghost default_model = default_dictionary.model();
    let mut properties_entries = crate::pdf_object::new_entries();
    crate::pdf_object::add_entry(&mut properties_entries, "OCGs", crate::pdf_object::array_object(references));
    crate::pdf_object::add_entry(&mut properties_entries, "D", PdfObject::Dictionary(default_dictionary));
    assert(crate::pdf_object::entries_model(properties_entries@) =~= seq![
        (ascii("OCGs"@), Obj::Array(refs)),
        (ascii("D"@), Obj::Dictionary(default_model)),
    ]);
    let properties = Dictionary::from_entries(properties_entries);
    catalog_dictionary.set(ascii_bytes("OCProperties"), PdfObject::Dictionary(properties));
    assert(catalog_dictionary.model() =~~= catalog(pages_id, refs));
    catalog_dictionary
}

/// The marked content of each layer names a property of its page's resources: under
/// `MC` and the position of its group, the `Properties` of the resource dictionary refer
/// to the group of the layer.
pub proof fn lemma_layer_group_resolves(existing: Seq<Obj>, references: Seq<Obj>, l: int)
    requires
        0 <= l < references.len(),
    ensures
        resource_entries(existing, references).len() == 1,
        resource_entries(existing, references)[0].0 == ascii("Properties"@),
        resource_entries(existing, references)[0].1 matches Obj::Dictionary(properties) && crate::pdf_object::assoc_get(
            properties,
            utf8(ocg_name((existing.len() + l) as nat)),
        ) == Some(references[l]),
{
    let all = existing + references;
    lemma_ocg_entries_lookup(all, existing.len() + l);
    assert(all[existing.len() + l] == references[l]);
}

/// Each font is found in the dictionary of fonts, under its key, with a reference to the
/// object number given out for its dictionary.
pub proof fn lemma_font_resolves(fonts: Seq<(ObjectId, Font)>, order: Seq<usize>, i: usize)
    requires
        is_key_order(order, fonts.len()),
        i < fonts.len(),
    ensures
        crate::pdf_object::assoc_get(fonts_dictionary_entries(fonts, order), font_key_bytes(i as nat)) == Some(
            Obj::Reference(fonts[i as int].0),
        ),
{
    lemma_key_order_is_permutation(order, fonts.len());
    assert(order.contains(i));
    let k = choose|k: int| 0 <= k < order.len() && order[k] == i;
    lemma_font_entries_lookup(fonts, order, order.len() as int, k);
    assert(fonts_dictionary_entries(fonts, order).take(order.len() as int) =~= fonts_dictionary_entries(fonts, order));
}

/// Reading the first `n` entries of the dictionary of fonts under the key of the font at
/// position `k < n` of the order gives the reference to that font's dictionary.
proof fn lemma_font_entries_lookup(fonts: Seq<(ObjectId, Font)>, order: Seq<usize>, n: int, k: int)
    requires
        is_key_order(order, fonts.len()),
        0 <= k < n <= order.len(),
    ensures
        crate::pdf_object::assoc_get(fonts_dictionary_entries(fonts, order).take(n), font_key_bytes(order[k] as nat)) == Some(
            Obj::Reference(fonts[order[k] as int].0),
        ),
    decreases n,
{
    lemma_key_order_is_permutation(order, fonts.len());
    let entries = fonts_dictionary_entries(fonts, order).take(n);
    assert(entries.last() == (font_key_bytes(order[n - 1] as nat), Obj::Reference(fonts[order[n - 1] as int].0)));
    if k < n - 1 {
        assert(entries.drop_last() =~= fonts_dictionary_entries(fonts, order).take(n - 1));
        lemma_font_entries_lookup(fonts, order, n - 1, k);
        if font_key_bytes(order[n - 1] as nat) == font_key_bytes(order[k] as nat) {
            lemma_font_key_injective(order[n - 1] as nat, order[k] as nat);
            assert(order[k] != order[n - 1]);
        }
    }
}

/// The operation that shows a text holds a hexadecimal string that decodes, two bytes
/// per glyph, to the glyphs of the text.
pub proof fn lemma_text_shows_glyphs(
    face: Seq<char>,
    font_size: u32,
    caret_position: [u32; 2],
    color: [u32; 3],
    glyphs: Seq<u16>,
)
    ensures
        text_operations(face, font_size, caret_position, color, glyphs)[4].0 == "Tj"@,
        text_operations(face, font_size, caret_position, color, glyphs)[4].1[0] matches OperandModel::Str(bytes, format)
            && format == StringFormat::Hexadecimal && decode_glyph_bytes(bytes) == glyphs,
{
    lemma_glyph_bytes_round_trip(glyphs);
}

/// Copies of a list of objects.
fn duplicate_items(items: &Vec<PdfObject>) -> (r: Vec<PdfObject>)
    ensures
        crate::pdf_object::objects_model(r@) == crate::pdf_object::objects_model(items@),
{
    let mut result: Vec<PdfObject> = Vec::new();
    let mut i: usize = 0;
    while i < items.len()
        invariant
            i <= items.len(),
            result@.len() == i,
            forall|j: int| 0 <= j < i ==> (#[trigger] result@[j]).model() == items@[j].model(),
        decreases items.len() - i,
    {
        result.push(items[i].duplicate());
        i = i + 1;
    }
    assert(crate::pdf_object::objects_model(result@) =~= crate::pdf_object::objects_model(items@));
    result
}

/// A string object written from a text in UTF-8.
fn literal_object(text: &str) -> (o: PdfObject)
    ensures
        o.model() == literal(text@),
{
    PdfObject::String(utf8_bytes(text), StringFormat::Literal)
}

/// This struct represents the PDF document under construction: the fonts it uses (the
/// font at index `i` has the identifier `F` and `i`, and an object number given out for
/// its dictionary), the store of its numbered objects, its identifier and its pages.
pub struct PdfDocument {
    fonts: Vec<(ObjectId, Font)>,
    /// The store of the numbered objects of the document.
    pub inner_document: ObjectStore,
    /// The identifier of the document, written as the first part of its `ID`.
    pub identifier: String,
    pages: Vec<PdfPage>,
}

impl PdfDocument {
    /// The fonts of the document, with the object identifiers given out for their
    /// dictionaries.
    pub closed spec fn spec_fonts(&self) -> Seq<(ObjectId, Font)> {
        self.fonts@
    }

    /// The store of the numbered objects of the document.
    pub closed spec fn spec_store(&self) -> ObjectStore {
        self.inner_document
    }

    /// The identifier of the document.
    pub closed spec fn spec_identifier(&self) -> Seq<char> {
        self.identifier@
    }

    /// The pages of the document.
    pub closed spec fn spec_pages(&self) -> Seq<PdfPage> {
        self.pages@
    }

    /// The layers of each page.
    pub open spec fn spec_page_layers(&self) -> Seq<Seq<LayerModel>> {
        Seq::new(self.spec_pages().len(), |i: int| self.spec_pages()[i].spec_layers())
    }

    /// The invariant of a document: its store is well formed; font `i` is named `F` and
    /// `i`, and its dictionary has an object number that was given out and that no other
    /// font has; page `i` has the number `i + 1`; and every page has exactly one layer,
    /// named `Layer0`.
    pub open spec fn well_formed(&self) -> bool {
        &&& self.spec_store().well_formed()
        &&& fonts_well_formed(self.spec_fonts(), self.spec_store())
        &&& pages_well_formed(self.spec_pages())
        &&& single_layer_pages(self.spec_pages())
    }

    /// The number of fonts of the document.
    pub fn font_count(&self) -> (n: usize)
        ensures
            n == self.spec_fonts().len(),
    {
        self.fonts.len()
    }

    /// The pages of the document.
    pub fn pages(&self) -> (pages: &Vec<PdfPage>)
        ensures
            pages@ == self.spec_pages(),
    {
        &self.pages
    }

    /// Create a new `PdfDocument` whose store is empty and of version 1.5, with the given
    /// identifier.
    pub fn new(pdf_document_identifier: String) -> (document: PdfDocument)
        ensures
            document.well_formed(),
            document.spec_identifier() == pdf_document_identifier@,
            document.spec_store().version@ == "1.5"@,
            document.spec_store().max_id == 0,
            document.spec_store().model() == Seq::<(ObjectId, Obj)>::empty(),
            document.spec_store().trailer.model() == Seq::<(Seq<u8>, Obj)>::empty(),
            document.spec_fonts().len() == 0,
            document.spec_pages().len() == 0,
    {
        PdfDocument {
            fonts: Vec::new(),
            inner_document: ObjectStore::with_version("1.5".to_string()),
            identifier: pdf_document_identifier,
            pages: Vec::new(),
        }
    }

    /// Adds a page of the given width and height in millimeters (the bit patterns of
    /// single-precision values) with an empty layer named `Layer0`. Returns the index of
    /// the page and the index of the layer in the page, which is zero.
    pub fn add_page_with_layer(&mut self, page_width: u32, page_height: u32) -> (indices: (usize, usize))
        requires
            old(self).well_formed(),
            old(self).spec_pages().len() < usize::MAX,
        ensures
            final(self).well_formed(),
            indices == (old(self).spec_pages().len() as usize, 0usize),
            final(self).spec_pages().len() == old(self).spec_pages().len() + 1,
            forall|i: int| 0 <= i < old(self).spec_pages().len() ==> #[trigger] final(self).spec_pages()[i] == old(self).spec_pages()[i],
            final(self).spec_pages().last().spec_width() == Real::Millimeters(page_width),
            final(self).spec_pages().last().spec_height() == Real::Millimeters(page_height),
            final(self).spec_pages().last().spec_layers() == seq![("Layer0"@, Seq::<OperationModel>::empty())],
            final(self).spec_pages().last().spec_resources() == Seq::<Obj>::empty(),
            final(self).spec_pages().last().spec_extension() is None,
            final(self).spec_fonts() == old(self).spec_fonts(),
            final(self).spec_store() == old(self).spec_store(),
            final(self).spec_identifier() == old(self).spec_identifier(),
    {
        let mut pdf_page = PdfPage::new(
            self.pages.len() + 1,
            Real::Millimeters(page_width),
            Real::Millimeters(page_height),
        );
        let pdf_layer = PdfLayer::new("Layer0".to_string());
        pdf_page.layers.push(pdf_layer);
        assert(pdf_page.spec_layers() =~= seq![("Layer0"@, Seq::<OperationModel>::empty())]);
        assert(pdf_page.spec_number() == old(self).spec_pages().len() + 1);
        assert(pdf_page.well_formed());
        self.pages.push(pdf_page);
        assert(self.spec_pages() == old(self).spec_pages().push(self.pages@.last()));
        assert(self.spec_fonts() == old(self).spec_fonts());
        assert(self.spec_store() == old(self).spec_store());
        proof {
            let fonts = self.spec_fonts();
            assert forall|i: int| 0 <= i < fonts.len() implies (#[trigger] fonts[i]).1.spec_face_identifier() == font_key(i as nat) by {
                assert(fonts[i] == old(self).spec_fonts()[i]);
            }
            let pages = self.spec_pages();
            assert forall|i: int| 0 <= i < pages.len() implies (#[trigger] pages[i]).spec_number() == i + 1
                && pages[i].well_formed() by {
                if i < old(self).spec_pages().len() {
                    assert(pages[i] == old(self).spec_pages()[i]);
                }
            }
        }
        let page_index = self.pages.len() - 1;
        let layer_index_in_page: usize = 0;
        (page_index, layer_index_in_page)
    }

    /// Adds a font, from the data of a TTF font (or an OTF font that wraps one), to the
    /// document. The font is named `F` and its index, and an object number is given out
    /// for its dictionary. Returns the index of the font. Fails exactly when the data
    /// cannot be parsed as a font face.
    pub fn add_font(&mut self, font_bytes: Vec<u8>) -> (r: Result<usize, ContextError>)
        requires
            old(self).well_formed(),
            old(self).spec_store().max_id < u32::MAX,
            font_bytes@.len() <= i64::MAX,
        ensures
            final(self).well_formed(),
            r is Ok <==> face_parses(font_bytes@),
            r matches Ok(index) ==> {
                let font = final(self).spec_fonts().last();
                &&& index == old(self).spec_fonts().len()
                &&& final(self).spec_fonts().len() == old(self).spec_fonts().len() + 1
                &&& final(self).spec_fonts().drop_last() == old(self).spec_fonts()
                &&& font.0 == ((old(self).spec_store().max_id + 1) as u32, 0u16)
                &&& font.1.spec_bytes() == font_bytes@
                &&& font.1.spec_face_data() == font_bytes@
                &&& font.1.spec_units_per_em() == units_per_em_of(font_bytes@)
                &&& font.1.spec_face_identifier() == font_key(index as nat)
                &&& final(self).spec_store().max_id == old(self).spec_store().max_id + 1
                &&& final(self).spec_store().model() == old(self).spec_store().model()
                &&& final(self).spec_store().trailer == old(self).spec_store().trailer
                &&& final(self).spec_store().version == old(self).spec_store().version
            },
            r matches Err(e) ==> {
                &&& *final(self) == *old(self)
                &&& e.context@ == "Failed to parse font"@
                &&& e.source_error matches Some(s) && s@ == context_error_message(
                    "Failed to parse font"@,
                    Some(face_parsing_error_text(font_bytes@)),
                )
            },
            final(self).spec_pages() == old(self).spec_pages(),
            final(self).spec_identifier() == old(self).spec_identifier(),
    {
        let ttf_font_face = match TtfFontFace::from_bytes(font_bytes.as_slice()) {
            Ok(face) => face,
            Err(error) => {
                let message = error.message();
                proof {
                    assert(message@ == context_error_message(
                        "Failed to parse font"@,
                        Some(face_parsing_error_text(font_bytes@)),
                    ));
                }
                return Err(ContextError::with_error("Failed to parse font".to_string(), message));
            },
        };
        let index = self.fonts.len();
        let font = Font::new(font_bytes, ttf_font_face, prefixed_number("F", index));
        let font_object_id = self.inner_document.new_object_id();
        self.fonts.push((font_object_id, font));
        assert(self.spec_fonts().drop_last() =~= old(self).spec_fonts());
        proof {
            let fonts = self.spec_fonts();
            let store = self.spec_store();
            assert(fonts[index as int].0 == font_object_id);
            assert forall|i: int| 0 <= i < fonts.len() implies {
                &&& 1 <= (#[trigger] fonts[i]).0.0 <= store.max_id
                &&& fonts[i].0.1 == 0
            } by {
                if i < index {
                    assert(fonts[i] == old(self).spec_fonts()[i]);
                }
            }
            assert forall|i: int, j: int| 0 <= i < j < fonts.len() implies #[trigger] fonts[i].0 != #[trigger] fonts[j].0 by {
                assert(fonts[i] == old(self).spec_fonts()[i]);
                if j < index {
                    assert(fonts[j] == old(self).spec_fonts()[j]);
                }
            }
            assert forall|i: int| 0 <= i < fonts.len() implies (#[trigger] fonts[i]).1.spec_face_identifier() == font_key(i as nat) by {
                if i < index {
                    assert(fonts[i] == old(self).spec_fonts()[i]);
                }
            }
            let pages = self.spec_pages();
            assert(pages == old(self).spec_pages());
            assert forall|i: int| 0 <= i < pages.len() implies (#[trigger] pages[i]).spec_number() == i + 1
                && pages[i].well_formed() by {
                assert(pages[i] == old(self).spec_pages()[i]);
            }
        }
        Ok(self.fonts.len() - 1)
    }

    /// Retrieve the font at the given index, with the object identifier given out for its
    /// dictionary.
    pub fn get_font(&self, font_index: usize) -> (r: Result<&(ObjectId, Font), ContextError>)
        ensures
            r is Ok <==> font_index < self.spec_fonts().len(),
            r matches Ok(font) ==> *font == self.spec_fonts()[font_index as int],
            r matches Err(e) ==> e.context@ == "Failed to find font "@ + decimal(font_index as nat) + " into the fonts map"@
                && e.source_error is None,
    {
        if font_index < self.fonts.len() {
            Ok(&self.fonts[font_index])
        } else {
            let mut text = str_chars("Failed to find font ");
            let digits = decimal_chars(font_index as u64);
            push_chars(&mut text, &digits);
            push_str(&mut text, " into the fonts map");
            Err(ContextError::with_context(chars_to_string(&text)))
        }
    }

    /// Appends the given operations to the layer at the given index of the page at the
    /// given index. Fails when there is no such page, or no such layer in it.
    pub fn add_operations_to_layer_in_page(
        &mut self,
        layer_index: usize,
        page_index: usize,
        operations: Vec<ContentOperation>,
    ) -> (r: Result<(), ContextError>)
        requires
            old(self).well_formed(),
        ensures
            final(self).well_formed(),
            r is Ok <==> page_index < old(self).spec_pages().len()
                && layer_index < old(self).spec_pages()[page_index as int].spec_layers().len(),
            r is Ok ==> final(self).spec_page_layers() == page_with_operations(
                old(self).spec_page_layers(),
                page_index as int,
                layer_index as int,
                operations_model(operations@),
            ),
            r is Err ==> *final(self) == *old(self),
            r matches Err(e) ==> e.source_error is None && (if page_index >= old(self).spec_pages().len() {
                e.context@ == "Failed to find the page with index "@ + decimal(page_index as nat)
            } else {
                e.context@ == "Failed to find the layer with index "@ + decimal(layer_index as nat)
            }),
            final(self).spec_pages().len() == old(self).spec_pages().len(),
            forall|i: int|
                0 <= i < old(self).spec_pages().len() ==> {
                    &&& (#[trigger] final(self).spec_pages()[i]).spec_number() == old(self).spec_pages()[i].spec_number()
                    &&& final(self).spec_pages()[i].spec_width() == old(self).spec_pages()[i].spec_width()
                    &&& final(self).spec_pages()[i].spec_height() == old(self).spec_pages()[i].spec_height()
                    &&& final(self).spec_pages()[i].spec_resources() == old(self).spec_pages()[i].spec_resources()
                    &&& final(self).spec_pages()[i].spec_extension() == old(self).spec_pages()[i].spec_extension()
                },
            final(self).spec_fonts() == old(self).spec_fonts(),
            final(self).spec_store() == old(self).spec_store(),
            final(self).spec_identifier() == old(self).spec_identifier(),
    {
        if page_index >= self.pages.len() {
            let mut text = str_chars("Failed to find the page with index ");
            let digits = decimal_chars(page_index as u64);
            push_chars(&mut text, &digits);
            return Err(ContextError::with_context(chars_to_string(&text)));
        }
        if layer_index >= self.pages[page_index].layers.len() {
            let mut text = str_chars("Failed to find the layer with index ");
            let digits = decimal_chars(layer_index as u64);
            push_chars(&mut text, &digits);
            return Err(ContextError::with_context(chars_to_string(&text)));
        }
        let ghost old_pages = self.spec_page_layers();
        let ghost added = operations_model(operations@);
        let mut page = self.pages.remove(page_index);
        let ghost old_page = page;
        let mut layer = page.layers.remove(layer_index);
        layer.extend(operations);
        page.layers.insert(layer_index, layer);
        assert(page.spec_number() == old_page.spec_number());
        assert(page.well_formed() == old_page.well_formed());
        assert(page.spec_width() == old_page.spec_width());
        assert(page.spec_height() == old_page.spec_height());
        assert(page.spec_resources() == old_page.spec_resources());
        assert(page.spec_extension() == old_page.spec_extension());
        self.pages.insert(page_index, page);
        proof {
            let expected = page_with_operations(old_pages, page_index as int, layer_index as int, added);
            assert forall|i: int| 0 <= i < self.pages@.len() implies #[trigger] self.spec_page_layers()[i] == expected[i] by {
                if i == page_index {
                    assert(self.pages@[i].spec_layers() =~= expected[i]);
                } else {
                    assert(self.pages@[i] == old(self).pages@[i]);
                }
            }
            assert(self.spec_page_layers() =~= expected);
            assert forall|i: int| 0 <= i < self.pages@.len() implies (#[trigger] self.spec_pages()[i]).spec_number() == i + 1
                && self.spec_pages()[i].well_formed() by {
                if i != page_index {
                    assert(self.pages@[i] == old(self).pages@[i]);
                } else {
                    assert(self.pages@[i] == page);
                }
            }
        }
        Ok(())
    }

    /// Writes the document into its store and finalizes it: the information dictionary,
    /// the optional content groups of all layers, the catalog, the fonts, and for each page
    /// its resources, its content stream (the layers, each wrapped into its group) and its
    /// dictionary, then the dictionary of pages; the trailer gets the root, the information
    /// dictionary and the `ID` made of the identifier of the document and the instance
    /// identifier. The dates are those of the Unix epoch. The document stays well formed
    /// and can be written again: the layers are wrapped again, new objects are stored, and
    /// each font's dictionary replaces the one stored by the earlier writing.
    #[verifier::rlimit(50)]
    #[verifier::spinoff_prover]
    pub fn write_all(&mut self, instance_id: String) -> (r: Result<(), ContextError>)
        requires
            old(self).well_formed(),
            old(self).spec_store().max_id + 6 + layer_total(old(self).spec_pages()) + 3 * old(self).spec_fonts().len() + 3
                * old(self).spec_pages().len() <= u32::MAX,
        ensures
            r is Ok,
            final(self).well_formed(),
            final(self).spec_store().well_formed(),
            final(self).spec_store().max_id == old(self).spec_store().max_id + 6 + layer_total(old(self).spec_pages()) + 3
                * old(self).spec_fonts().len() + 3 * old(self).spec_pages().len(),
            is_written_store(
                old(self).spec_fonts(),
                old(self).spec_pages(),
                old(self).spec_identifier(),
                old(self).spec_store().max_id as int,
                old(self).spec_store().model(),
                final(self).spec_store().model(),
            ),
            final(self).spec_store().trailer.model() == written_trailer(
                old(self).spec_store().trailer.model(),
                ((old(self).spec_store().max_id + 5 + layer_total(old(self).spec_pages())) as u32, 0u16),
                ((old(self).spec_store().max_id + 1) as u32, 0u16),
                old(self).spec_identifier(),
                instance_id@,
            ),
            final(self).spec_store().version == old(self).spec_store().version,
            final(self).spec_pages().len() == old(self).spec_pages().len(),
            forall|k: int|
                0 <= k < old(self).spec_pages().len() ==> #[trigger] is_written_page(final(self).spec_pages()[k], old(self).spec_pages()[k]),
            final(self).spec_fonts() == old(self).spec_fonts(),
            final(self).spec_identifier() == old(self).spec_identifier(),
    {
        let ghost m = self.inner_document.max_id;
        let ghost old_model = self.inner_document.model();
        let ghost old_pages = self.pages@;
        let ghost fonts = self.fonts@;
        let ghost total = layer_total(old_pages);
        proof {
            lemma_layer_total_monotonic(old_pages, 0);
        }

        let (document_info_id, pages_id, usage_ocg_dictionary_id, intent_array_id) = write_prelude(
            &mut self.inner_document,
            &self.identifier,
        );
        let ghost after_prelude = self.inner_document.model();
        let mut pages_entries = crate::pdf_object::new_entries();
        crate::pdf_object::add_entry(&mut pages_entries, "Type", crate::pdf_object::name_object("Pages"));
        crate::pdf_object::add_entry(&mut pages_entries, "Count", PdfObject::Integer(self.pages.len() as i64));
        assert(crate::pdf_object::entries_model(pages_entries@) =~= seq![
            (ascii("Type"@), name("Pages"@)),
            (ascii("Count"@), Obj::Integer(old_pages.len() as int)),
        ]);
        let mut pages_dictionary_entries = Dictionary::from_entries(pages_entries);

        // The optional content groups of the layers, page after page, and the catalog
        let (association, references) = add_ocg_dictionaries(
            &mut self.inner_document,
            &self.pages,
            intent_array_id,
            usage_ocg_dictionary_id,
        );
        let ghost after_groups = self.inner_document.model();
        let catalog_entries = catalog_dictionary(pages_id, references);
        let catalog_id = self.inner_document.add_object(PdfObject::Dictionary(catalog_entries));
        let ghost after_catalog = self.inner_document.model();

        // The trailer
        self.inner_document.trailer.set(ascii_bytes("Root"), PdfObject::Reference(catalog_id));
        self.inner_document.trailer.set(ascii_bytes("Info"), PdfObject::Reference(document_info_id));
        let mut identifiers = crate::pdf_object::new_items();
        crate::pdf_object::add_item(&mut identifiers, literal_object(self.identifier.as_str()));
        crate::pdf_object::add_item(&mut identifiers, literal_object(instance_id.as_str()));
        assert(crate::pdf_object::objects_model(identifiers@) =~= seq![literal(self.identifier@), literal(instance_id@)]);
        self.inner_document.trailer.set(ascii_bytes("ID"), crate::pdf_object::array_object(identifiers));

        // The fonts and the dictionary of fonts
        proof {
            let store = self.spec_store();
            assert(!has_key(store.model(), pages_id));
            assert forall|i: int| 0 <= i < fonts.len() implies {
                &&& 1 <= (#[trigger] fonts[i]).0.0 <= store.max_id
                &&& fonts[i].0.1 == 0
                &&& fonts[i].1.spec_bytes().len() <= i64::MAX
            } by {}
            assert(fonts_well_formed(self.spec_fonts(), store));
        }
        let ghost before_fonts = self.inner_document.model();
        let ghost max_before_fonts = self.inner_document.max_id;
        let fonts_dictionary = self.insert_fonts_into_document();
        let ghost after_fonts = self.inner_document.model();
        let ghost fonts_entries = fonts_dictionary.model();
        let fonts_dictionary_id = self.inner_document.add_object(PdfObject::Dictionary(fonts_dictionary));
        let ghost after_fonts_dictionary = self.inner_document.model();
        proof {
            assert(!has_key(after_fonts, pages_id)) by {
                if has_key(after_fonts, pages_id) {
                    if exists|i: int| 0 <= i < fonts.len() && pages_id == #[trigger] fonts[i].0 {
                        let i = choose|i: int| 0 <= i < fonts.len() && pages_id == #[trigger] fonts[i].0;
                        assert(fonts[i].0.0 <= m);
                    }
                }
            }
        }

        // The objects of the pages
        let page_ids = add_pages_objects(
            &mut self.inner_document,
            &mut self.pages,
            &association,
            Ghost(m + 5),
            pages_id,
            fonts_dictionary_id,
        )?;
        let ghost after_pages = self.inner_document.model();
        let ghost kids = crate::pdf_object::objects_model(page_ids@);
        pages_dictionary_entries.set(ascii_bytes("Kids"), crate::pdf_object::array_object(page_ids));
        proof {
            assert(!has_key(after_pages, pages_id));
            lemma_assoc_set_absent(after_pages, pages_id, Obj::Dictionary(pages_dictionary_entries.model()));
        }
        self.inner_document.insert_object(pages_id, PdfObject::Dictionary(pages_dictionary_entries));
        proof {
            let (order, fonts_part) = choose|order: Seq<usize>, fonts_part: Seq<(ObjectId, Obj)>|
                {
                    &&& #[trigger] is_key_order(order, fonts.len())
                    &&& #[trigger] is_fonts_insertion(fonts, order, max_before_fonts, fonts_part)
                    &&& after_fonts == stored(before_fonts, fonts_part)
                    &&& fonts_entries == fonts_dictionary_entries(fonts, order)
                };
            assert(max_before_fonts == m + 5 + total);
            assert(is_key_order(order, fonts.len()));
            assert(is_fonts_insertion(fonts, order, (m + 5 + total) as u32, fonts_part));
            let info_id: ObjectId = ((m + 1) as u32, 0u16);
            let usage_id: ObjectId = ((m + 3) as u32, 0u16);
            let intent_id: ObjectId = ((m + 4) as u32, 0u16);
            let catalog_id_spec: ObjectId = ((m + 5 + total) as u32, 0u16);
            let fonts_id: ObjectId = ((m + 6 + total + 3 * fonts.len()) as u32, 0u16);
            let first_page_id = m + 7 + total + 3 * fonts.len();
            assert(after_prelude == old_model + seq![
                (info_id, Obj::Dictionary(document_info(self.identifier@, pdf_timestamp(unix_epoch_timestamp())))),
                (usage_id, Obj::Dictionary(ocg_usage())),
                (intent_id, intent_array()),
            ]);
            assert(after_groups == after_prelude + ocg_objects(old_pages, m + 5, intent_id, usage_id));
            assert(after_catalog == after_groups.push((catalog_id_spec, Obj::Dictionary(catalog(pages_id, ocg_references(old_pages, m + 5))))));
            assert(before_fonts =~= old_model + written_front(old_pages, self.identifier@, m as int));
            assert(fonts_dictionary_id == fonts_id);
            assert(after_fonts_dictionary == after_fonts.push((fonts_id, Obj::Dictionary(fonts_dictionary_entries(fonts, order)))));
            assert(after_pages == after_fonts_dictionary + pages_objects(old_pages, m + 5, first_page_id, pages_id, fonts_id));
            assert(kids == page_references(old_pages.len(), first_page_id));
            assert(self.inner_document.model() == after_pages.push(
                (pages_id, Obj::Dictionary(pages_dictionary(old_pages.len(), page_references(old_pages.len(), first_page_id)))),
            ));
            let back = written_back(old_pages, m as int, fonts.len(), fonts_dictionary_entries(fonts, order));
            assert(self.inner_document.model() =~~= after_fonts + back);
            assert(is_written_store(fonts, old_pages, self.identifier@, m as int, old_model, self.inner_document.model()));
        }
        proof {
            let pages = self.spec_pages();
            assert forall|i: int| 0 <= i < fonts.len() implies {
                &&& 1 <= (#[trigger] fonts[i]).0.0 <= self.spec_store().max_id
                &&& fonts[i].0.1 == 0
                &&& fonts[i].1.spec_bytes().len() <= i64::MAX
            } by {}
            assert forall|i: int| 0 <= i < pages.len() implies (#[trigger] pages[i]).spec_number() == i + 1
                && pages[i].well_formed() by {
                assert(is_written_page(pages[i], old_pages[i]));
            }
            assert forall|i: int| 0 <= i < pages.len() implies (#[trigger] pages[i]).spec_layers().len() == 1
                && pages[i].spec_layers()[0].0 == "Layer0"@ by {
                assert(is_written_page(pages[i], old_pages[i]));
                assert(old_pages[i].spec_layers().len() == 1);
                assert(pages[i].spec_layers()[0].0 == old_pages[i].spec_layers()[0].0);
            }
        }
        Ok(())
    }

    /// Converts the fonts into a dictionary and inserts them into the document: in the
    /// order of their keys (the order in which the map of fonts keyed by identifier is
    /// walked), each font is inserted (`Font::insert_into_document`) and its dictionary is
    /// stored under the object identifier given out for it. Returns the dictionary of the
    /// fonts, from each key to a reference to the font's dictionary.
    #[verifier::rlimit(40)]
    pub fn insert_fonts_into_document(&mut self) -> (fonts_dictionary: Dictionary)
        requires
            old(self).well_formed(),
            old(self).spec_store().max_id + 3 * old(self).spec_fonts().len() <= u32::MAX,
        ensures
            final(self).spec_store().well_formed(),
            final(self).spec_store().max_id == old(self).spec_store().max_id + 3 * old(self).spec_fonts().len(),
            exists|order: Seq<usize>, fonts_part: Seq<(ObjectId, Obj)>|
                {
                    &&& #[trigger] is_key_order(order, old(self).spec_fonts().len())
                    &&& #[trigger] is_fonts_insertion(old(self).spec_fonts(), order, old(self).spec_store().max_id, fonts_part)
                    &&& final(self).spec_store().model() == stored(old(self).spec_store().model(), fonts_part)
                    &&& fonts_dictionary.model() == fonts_dictionary_entries(old(self).spec_fonts(), order)
                },
            final(self).spec_store().trailer == old(self).spec_store().trailer,
            final(self).spec_store().version == old(self).spec_store().version,
            final(self).spec_fonts() == old(self).spec_fonts(),
            final(self).spec_pages() == old(self).spec_pages(),
            final(self).spec_identifier() == old(self).spec_identifier(),
            forall|id: ObjectId|
                #[trigger] has_key(final(self).spec_store().model(), id) ==> has_key(old(self).spec_store().model(), id)
                    || id.0 > old(self).spec_store().max_id || exists|i: int|
                    0 <= i < old(self).spec_fonts().len() && id == #[trigger] old(self).spec_fonts()[i].0,
    {
        let ghost fonts = self.spec_fonts();
        let ghost old_model = self.spec_store().model();
        let ghost old_max = self.spec_store().max_id;
        let ghost n = fonts.len();
        let order = font_key_order(self.fonts.len());
        proof {
            assert forall|a: int, b: int| 0 <= a < b < n implies #[trigger] order@[a] != #[trigger] order@[b] by {
                lemma_bytes_lt_irreflexive(font_key_bytes(order@[a] as nat));
            }
        }
        let mut font_dictionary = Dictionary::new();
        let mut k: usize = 0;
        let ghost mut part: Seq<(ObjectId, Obj)> = Seq::empty();
        assert(fonts_dictionary_entries(fonts, order@.take(0)) =~= Seq::<(Seq<u8>, Obj)>::empty());
        while k < order.len()
            invariant
                k <= order@.len(),
                is_key_order(order@, n),
                forall|a: int, b: int| 0 <= a < b < n ==> #[trigger] order@[a] != #[trigger] order@[b],
                fonts == self.spec_fonts(),
                fonts == old(self).spec_fonts(),
                n == fonts.len(),
                fonts_well_formed(fonts, old(self).spec_store()),
                old_model == old(self).spec_store().model(),
                old_max == old(self).spec_store().max_id,
                old_max + 3 * n <= u32::MAX,
                self.spec_store().well_formed(),
                self.spec_store().max_id == old_max + 3 * k,
                self.spec_store().trailer == old(self).spec_store().trailer,
                self.spec_store().version == old(self).spec_store().version,
                self.spec_pages() == old(self).spec_pages(),
                self.spec_identifier() == old(self).spec_identifier(),
                part.len() == 4 * k,
                self.spec_store().model() == stored(old_model, part),
                is_fonts_insertion(fonts, order@.take(k as int), old_max, part),
                forall|id: ObjectId|
                    has_key(self.spec_store().model(), id) ==> has_key(old_model, id) || id.0 > old_max || exists|k2: int|
                        0 <= k2 < k && id == #[trigger] fonts[order@[k2] as int].0,
                font_dictionary.model() == fonts_dictionary_entries(fonts, order@.take(k as int)),
            decreases order@.len() - k,
        {
            let index = order[k];
            let ghost previous = self.spec_store().model();
            let ghost previous_max = self.spec_store().max_id;
            let ghost font_id = fonts[index as int].0;
            proof {
                assert(index < n);
                assert(self.spec_store().max_id + 3 <= u32::MAX) by (nonlinear_arith)
                    requires
                        self.spec_store().max_id == old_max + 3 * k,
                        old_max + 3 * n <= u32::MAX,
                        k < n,
                ;
            }
            let entry = &self.fonts[index];
            let collected_font_dictionary = entry.1.insert_into_document(&mut self.inner_document);
            let ghost collected_model = collected_font_dictionary.model();
            let ghost after_font = self.spec_store().model();
            let ghost added = after_font.skip(previous.len() as int);
            proof {
                assert(after_font =~= previous + added) by {
                    assert(after_font.take(previous.len() as int) == previous);
                }
                assert forall|i: int| 0 <= i < added.len() implies !has_key(previous, #[trigger] added[i].0) by {
                    assert(added[i] == after_font[previous.len() + i]);
                    if has_key(previous, added[i].0) {
                        let j = choose|j: int| 0 <= j < previous.len() && #[trigger] previous[j].0 == added[i].0;
                        assert(previous[j].0.0 <= previous_max);
                    }
                }
                assert forall|i: int, j: int| 0 <= i < j < added.len() implies #[trigger] added[i].0 != #[trigger] added[j].0 by {
                    assert(added[i] == after_font[previous.len() + i]);
                    assert(added[j] == after_font[previous.len() + j]);
                }
                lemma_stored_fresh(previous, added);
                assert(fonts[index as int].0.0 <= old_max);
            }
            self.inner_document.insert_object(entry.0, PdfObject::Dictionary(collected_font_dictionary));
            let key = utf8_bytes(entry.1.face_identifier().as_str());
            let ghost dictionary_before = font_dictionary.model();
            proof {
                assert(key@ == font_key_bytes(index as nat));
                assert(!has_key(dictionary_before, key@)) by {
                    if has_key(dictionary_before, key@) {
                        let j = choose|j: int| 0 <= j < dictionary_before.len() && #[trigger] dictionary_before[j].0 == key@;
                        assert(dictionary_before[j].0 == font_key_bytes(order@[j] as nat));
                        lemma_font_key_injective(order@[j] as nat, index as nat);
                        assert(order@[j] != order@[k as int]);
                    }
                }
                lemma_assoc_set_absent(dictionary_before, key@, Obj::Reference(font_id));
            }
            font_dictionary.set(key, PdfObject::Reference(entry.0));
            proof {
                let model = self.spec_store().model();
                let segment = added.push((font_id, Obj::Dictionary(collected_model)));
                assert(segment.drop_last() =~= added);
                assert(model == stored(previous, segment));
                lemma_stored_append(old_model, part, segment);
                assert(fonts_dictionary_entries(fonts, order@.take(k as int + 1)) =~= dictionary_before.push(
                    (font_key_bytes(index as nat), Obj::Reference(font_id)),
                ));
                assert(segment.take(3) =~= added);
                assert(font_segment_ok(fonts, index, (old_max + 3 * k) as u32, segment));
                let all = part + segment;
                assert forall|k3: int| 0 <= k3 < k + 1 implies #[trigger] font_segment_ok(
                    fonts,
                    order@.take(k as int + 1)[k3],
                    (old_max + 3 * k3) as u32,
                    all.subrange(4 * k3, 4 * k3 + 4),
                ) by {
                    if k3 < k {
                        assert(all.subrange(4 * k3, 4 * k3 + 4) =~= part.subrange(4 * k3, 4 * k3 + 4));
                        assert(order@.take(k as int + 1)[k3] == order@.take(k as int)[k3]);
                        assert(font_segment_ok(fonts, order@.take(k as int)[k3], (old_max + 3 * k3) as u32, part.subrange(4 * k3, 4 * k3 + 4)));
                    } else {
                        assert(all.subrange(4 * k3, 4 * k3 + 4) =~= segment);
                    }
                }
                assert forall|id: ObjectId| has_key(model, id) implies has_key(old_model, id) || id.0 > old_max || exists|k2: int|
                    0 <= k2 < k + 1 && id == #[trigger] fonts[order@[k2] as int].0 by {
                    if id == font_id {
                        assert(id == fonts[order@[k as int] as int].0);
                    } else {
                        assert(has_key(after_font, id));
                        if !has_key(previous, id) {
                            assert(id.0 > previous_max);
                        }
                    }
                }
                part = all;
            }
            k = k + 1;
        }
        assert(order@.take(k as int) =~= order@);
        proof {
            assert forall|id: ObjectId| #[trigger] has_key(self.spec_store().model(), id) implies has_key(old_model, id) || id.0 > old_max
                || exists|i: int| 0 <= i < fonts.len() && id == #[trigger] fonts[i].0 by {
                if exists|k2: int| 0 <= k2 < k && id == #[trigger] fonts[order@[k2] as int].0 {
                    let k2 = choose|k2: int| 0 <= k2 < k && id == #[trigger] fonts[order@[k2] as int].0;
                    assert(order@[k2] < n);
                    assert(id == fonts[order@[k2] as int].0);
                }
            }
            assert(is_fonts_insertion(fonts, order@, old_max, part));
        }
        font_dictionary
    }

    /// Writes the text in the given font, size and color at the caret position (in
    /// millimeters) onto the given layer of the given page. The text is normalized to
    /// Normalization Form C and each of its characters that the font has is shown by its
    /// glyph identifier; the others are left out. The color, the size and the position are
    /// the bit patterns of single-precision values. Fails when there is no font, page or
    /// layer at the given indices, in this order of checking, and then changes nothing.
    pub fn write_text_to_layer_in_page(
        &mut self,
        page_index: usize,
        layer_index: usize,
        color: [u32; 3],
        text: String,
        font_index: usize,
        font_size: u32,
        caret_position: [u32; 2],
    ) -> (r: Result<(), ContextError>)
        requires
            old(self).well_formed(),
        ensures
            final(self).well_formed(),
            r is Ok <==> font_index < old(self).spec_fonts().len() && page_index < old(self).spec_pages().len()
                && layer_index < old(self).spec_pages()[page_index as int].spec_layers().len(),
            r is Ok ==> final(self).spec_page_layers() == page_with_operations(
                old(self).spec_page_layers(),
                page_index as int,
                layer_index as int,
                text_operations(
                    font_key(font_index as nat),
                    font_size,
                    caret_position,
                    color,
                    text_glyphs(old(self).spec_fonts()[font_index as int].1.spec_face_data(), nfc(text@)),
                ),
            ),
            r is Ok ==> ({
                let before = old(self).spec_page_layers()[page_index as int][layer_index as int].1;
                let after = final(self).spec_page_layers()[page_index as int][layer_index as int].1;
                let n = before.len() as int;
                &&& after.len() == n + 6
                &&& after.take(n) == before
                &&& after[n + 1] == ("Tf"@, seq![
                    OperandModel::Name(utf8(font_key(font_index as nat))),
                    OperandModel::Real(Real::Value(font_size)),
                ])
                &&& after[n + 2] == ("Td"@, seq![
                    OperandModel::Real(Real::Millimeters(caret_position[0])),
                    OperandModel::Real(Real::Millimeters(caret_position[1])),
                ])
                &&& after[n + 3] == ("rg"@, seq![
                    OperandModel::Real(Real::Value(color[0])),
                    OperandModel::Real(Real::Value(color[1])),
                    OperandModel::Real(Real::Value(color[2])),
                ])
            }),
            r is Err ==> *final(self) == *old(self),
            r matches Err(e) ==> e.source_error is None && (if font_index >= old(self).spec_fonts().len() {
                e.context@ == "Failed to find font "@ + decimal(font_index as nat) + " into the fonts map"@
            } else if page_index >= old(self).spec_pages().len() {
                e.context@ == "Failed to find the page with index "@ + decimal(page_index as nat)
            } else {
                e.context@ == "Failed to find the layer with index "@ + decimal(layer_index as nat)
            }),
            final(self).spec_pages().len() == old(self).spec_pages().len(),
            forall|i: int|
                0 <= i < old(self).spec_pages().len() ==> {
                    &&& (#[trigger] final(self).spec_pages()[i]).spec_number() == old(self).spec_pages()[i].spec_number()
                    &&& final(self).spec_pages()[i].spec_width() == old(self).spec_pages()[i].spec_width()
                    &&& final(self).spec_pages()[i].spec_height() == old(self).spec_pages()[i].spec_height()
                    &&& final(self).spec_pages()[i].spec_resources() == old(self).spec_pages()[i].spec_resources()
                    &&& final(self).spec_pages()[i].spec_extension() == old(self).spec_pages()[i].spec_extension()
                },
            final(self).spec_fonts() == old(self).spec_fonts(),
            final(self).spec_store() == old(self).spec_store(),
            final(self).spec_identifier() == old(self).spec_identifier(),
    {
        let font_entry = self.get_font(font_index)?;
        let font = &font_entry.1;
        let face_name = utf8_bytes(font.face_identifier().as_str());
        let ghost data = font.spec_face_data();

        // The glyph identifiers of the characters of the normalized text
        let characters = nfc_chars(text.as_str());
        let mut glyph_id_list: Vec<u16> = Vec::new();
        let mut i: usize = 0;
        while i < characters.len()
            invariant
                i <= characters.len(),
                data == font.spec_face_data(),
                glyph_id_list@ == text_glyphs(data, characters@.take(i as int)),
            decreases characters.len() - i,
        {
            assert(characters@.take(i as int + 1).drop_last() =~= characters@.take(i as int));
            if let Some(glyph_id) = font.glyph_id(characters[i]) {
                glyph_id_list.push(glyph_id);
            }
            i = i + 1;
        }
        assert(characters@.take(characters@.len() as int) =~= characters@);

        // Two bytes per glyph identifier, the most significant first
        let mut glyph_id_bytes: Vec<u8> = Vec::new();
        let mut k: usize = 0;
        while k < glyph_id_list.len()
            invariant
                k <= glyph_id_list.len(),
                glyph_id_bytes@ == glyph_bytes(glyph_id_list@.take(k as int)),
            decreases glyph_id_list.len() - k,
        {
            let glyph_id = glyph_id_list[k];
            let high = (glyph_id >> 8) as u8;
            let low = (glyph_id & 255) as u8;
            assert(high == (glyph_id / 256) as u8) by (bit_vector)
                requires
                    high == (glyph_id >> 8) as u8,
            ;
            assert(low == (glyph_id % 256) as u8) by (bit_vector)
                requires
                    low == (glyph_id & 255) as u8,
            ;
            glyph_id_bytes.push(high);
            glyph_id_bytes.push(low);
            assert(glyph_id_list@.take(k as int + 1).drop_last() =~= glyph_id_list@.take(k as int));
            k = k + 1;
            assert(glyph_id_bytes@ =~= glyph_bytes(glyph_id_list@.take(k as int)));
        }
        assert(glyph_id_list@.take(glyph_id_list@.len() as int) =~= glyph_id_list@);

        let mut operations: Vec<ContentOperation> = Vec::new();
        operations.push(ContentOperation::new("BT", Vec::new()));
        let mut font_operands: Vec<Operand> = Vec::new();
        font_operands.push(Operand::Name(face_name));
        font_operands.push(Operand::Real(Real::Value(font_size)));
        operations.push(ContentOperation::new("Tf", font_operands));
        let mut position_operands: Vec<Operand> = Vec::new();
        position_operands.push(Operand::Real(Real::Millimeters(caret_position[0])));
        position_operands.push(Operand::Real(Real::Millimeters(caret_position[1])));
        operations.push(ContentOperation::new("Td", position_operands));
        let mut color_operands: Vec<Operand> = Vec::new();
        color_operands.push(Operand::Real(Real::Value(color[0])));
        color_operands.push(Operand::Real(Real::Value(color[1])));
        color_operands.push(Operand::Real(Real::Value(color[2])));
        operations.push(ContentOperation::new("rg", color_operands));
        let mut text_operands: Vec<Operand> = Vec::new();
        text_operands.push(Operand::String(glyph_id_bytes, StringFormat::Hexadecimal));
        operations.push(ContentOperation::new("Tj", text_operands));
        operations.push(ContentOperation::new("ET", Vec::new()));
        proof {
            assert(operands_model(Seq::<Operand>::empty()) =~= Seq::<OperandModel>::empty());
            let expected = text_operations(font_key(font_index as nat), font_size, caret_position, color, text_glyphs(data, nfc(text@)));
            let got = operations_model(operations@);
            assert(face_name@ == utf8(font_key(font_index as nat)));
            assert(glyph_id_bytes@ == glyph_bytes(text_glyphs(data, nfc(text@))));
            assert(got[0] == expected[0]);
            assert(got[1] == expected[1]);
            assert(got[2] == expected[2]);
            assert(got[3] == expected[3]);
            assert(got[4] == expected[4]);
            assert(got[5] == expected[5]);
            assert(got =~= expected);
        }
        let ghost old_layers = self.spec_page_layers();
        let r = self.add_operations_to_layer_in_page(layer_index, page_index, operations);
        proof {
            if r is Ok {
                lemma_written_text_operations(
                    old_layers,
                    page_index as int,
                    layer_index as int,
                    font_key(font_index as nat),
                    font_size,
                    caret_position,
                    color,
                    text_glyphs(data, nfc(text@)),
                );
            }
        }
        r
    }
}

impl Default for OcgLayersMap {
    fn default() -> (map: OcgLayersMap)
        ensures
            map.objects() == Seq::<Obj>::empty(),
            map.numbered(),
    {
        OcgLayersMap::new()
    }
}

} // verus!
