//! Device identity: descriptors of attached devices, the filter that picks
//! the scanners among them, and a snapshot of what was attached.

use vstd::prelude::*;

verus! {

/// The vendor and product a device must have to count as a scanner.
#[derive(Debug, Clone, Copy, PartialEq, Eq)]
pub struct DeviceFilter {
    pub vendor_id: u16,
    pub product_id: u16,
}

/// A [`DeviceDescriptor`] as a mathematical value.
#[verifier::ext_equal]
pub struct DescriptorView {
    pub vendor_id: u16,
    pub product_id: u16,
    pub product_string: Option<Seq<char>>,
    pub path: Seq<char>,
}

/// What is known of an attached device. A descriptor never changes once it
/// has been made.
#[derive(Debug, PartialEq, Eq)]
pub struct DeviceDescriptor {
    vendor_id: u16,
    product_id: u16,
    product_string: Option<String>,
    path: String,
}

impl View for DeviceDescriptor {
    type V = DescriptorView;

    closed spec fn view(&self) -> DescriptorView {
        DescriptorView {
            vendor_id: self.vendor_id,
            product_id: self.product_id,
            product_string: match self.product_string {
                Some(name) => Some(name@),
                None => None,
            },
            path: self.path@,
        }
    }
}

/// The descriptors of `devices`, each as a mathematical value.
pub open spec fn descriptor_views(devices: Seq<DeviceDescriptor>) -> Seq<DescriptorView> {
    devices.map_values(|device: DeviceDescriptor| device@)
}

impl DeviceFilter {
    /// A device passes when both its vendor and its product are the
    /// filter's.
    pub open spec fn admits(self, device: DescriptorView) -> bool {
        device.vendor_id == self.vendor_id && device.product_id == self.product_id
    }

    /// `admits` as a predicate on devices.
    pub open spec fn accepts(self) -> spec_fn(DescriptorView) -> bool {
        |device: DescriptorView| self.admits(device)
    }

    /// The filter for one vendor and product.
    pub fn new(vendor_id: u16, product_id: u16) -> (filter: Self)
        ensures
            filter == (DeviceFilter { vendor_id, product_id }),
    {
        DeviceFilter { vendor_id, product_id }
    }

    /// The filter for a vendor and product given as plain numbers, as they
    /// come from configuration. Identifiers are 16 bits wide: anything
    /// larger is refused.
    pub fn from_config(vendor_id: u64, product_id: u64) -> (filter: Option<Self>)
        ensures
            match filter {
                Some(made) => {
                    &&& vendor_id <= 0xFFFF
                    &&& product_id <= 0xFFFF
                    &&& made.vendor_id == vendor_id
                    &&& made.product_id == product_id
                },
                None => vendor_id > 0xFFFF || product_id > 0xFFFF,
            },
    {
        if vendor_id <= 0xFFFF && product_id <= 0xFFFF {
            Some(DeviceFilter { vendor_id: vendor_id as u16, product_id: product_id as u16 })
        } else {
            None
        }
    }

    /// Decides whether `device` passes the filter.
    pub fn matches(&self, device: &DeviceDescriptor) -> (passes: bool)
        ensures
            passes == self.admits(device@),
    {
        device.vendor_id == self.vendor_id && device.product_id == self.product_id
    }
}

impl Clone for DeviceDescriptor {
    fn clone(&self) -> (copy: Self)
        ensures
            copy == *self,
    {
        let product_string = match &self.product_string {
            Some(name) => Some(name.clone()),
            None => None,
        };
        DeviceDescriptor {
            vendor_id: self.vendor_id,
            product_id: self.product_id,
            product_string,
            path: self.path.clone(),
        }
    }
}

impl DeviceDescriptor {
    /// Describes a device by its identity and the path it is opened by.
    pub fn new(
        vendor_id: u16,
        product_id: u16,
        product_string: Option<String>,
        path: String,
    ) -> (device: Self)
        ensures
            device@ == (DescriptorView {
                vendor_id,
                product_id,
                product_string: match product_string {
                    Some(name) => Some(name@),
                    None => None,
                },
                path: path@,
            }),
    {
        DeviceDescriptor { vendor_id, product_id, product_string, path }
    }

    pub fn vendor_id(&self) -> (id: u16)
        ensures
            id == self@.vendor_id,
    {
        self.vendor_id
    }

    pub fn product_id(&self) -> (id: u16)
        ensures
            id == self@.product_id,
    {
        self.product_id
    }

    /// The display name the device gave, if it gave one.
    pub fn product_string(&self) -> (name: Option<&str>)
        ensures
            name matches Some(text) ==> self@.product_string == Some(text@),
            name is None ==> self@.product_string is None,
    {
        match &self.product_string {
            Some(name) => Some(name.as_str()),
            None => None,
        }
    }

    /// The platform path by which the device is opened.
    pub fn path(&self) -> (path: &str)
        ensures
            path@ == self@.path,
    {
        self.path.as_str()
    }
}

/// What filtering finds: every device found passes the filter and was among
/// the devices looked through, every device that passes is found, and so
/// nothing is found when nothing passes.
pub proof fn lemma_filter_finds_the_matches(devices: Seq<DescriptorView>, filter: DeviceFilter)
    ensures
        ({
            let found = devices.filter(filter.accepts());
            &&& forall|i: int|
                0 <= i < found.len() ==> filter.admits(#[trigger] found[i]) && devices.contains(
                    found[i],
                )
            &&& forall|i: int|
                0 <= i < devices.len() && filter.admits(#[trigger] devices[i]) ==> found.contains(
                    devices[i],
                )
            &&& (forall|i: int| 0 <= i < devices.len() ==> !filter.admits(#[trigger] devices[i]))
                ==> found.len() == 0
        }),
{
    let found = devices.filter(filter.accepts());
    assert forall|i: int| 0 <= i < found.len() implies filter.admits(#[trigger] found[i])
        && devices.contains(found[i]) by {
        devices.lemma_filter_pred(filter.accepts(), i);
        assert(found.contains(found[i]));
        devices.lemma_filter_contains_rev(filter.accepts(), found[i]);
    }
    assert forall|i: int|
        0 <= i < devices.len() && filter.admits(#[trigger] devices[i]) implies found.contains(
        devices[i],
    ) by {
        devices.lemma_filter_contains(filter.accepts(), i);
    }
    if found.len() > 0 {
        devices.lemma_filter_pred(filter.accepts(), 0);
        assert(found.contains(found[0]));
        devices.lemma_filter_contains_rev(filter.accepts(), found[0]);
    }
}

/// The devices that were attached when the snapshot was taken, in the order
/// in which the platform listed them.
pub struct DeviceCatalog {
    devices: Vec<DeviceDescriptor>,
}

impl View for DeviceCatalog {
    type V = Seq<DescriptorView>;

    closed spec fn view(&self) -> Seq<DescriptorView> {
        descriptor_views(self.devices@)
    }
}

impl DeviceCatalog {
    /// A snapshot of `devices`.
    pub fn new(devices: Vec<DeviceDescriptor>) -> (catalog: Self)
        ensures
            catalog@ == descriptor_views(devices@),
    {
        DeviceCatalog { devices }
    }

    /// How many devices the snapshot holds.
    pub fn len(&self) -> (n: usize)
        ensures
            n == self@.len(),
    {
        self.devices.len()
    }

    /// The devices of the snapshot that pass `filter`, in the snapshot's
    /// order; none if nothing passes.
    pub fn enumerate(&self, filter: DeviceFilter) -> (found: Vec<DeviceDescriptor>)
        ensures
            descriptor_views(found@) == self@.filter(filter.accepts()),
    {
        let mut found: Vec<DeviceDescriptor> = Vec::new();
        let mut i: usize = 0;
        proof {
            reveal(Seq::filter);
            assert(self@.take(0) =~= Seq::empty());
            assert(descriptor_views(found@) =~= Seq::empty());
        }
        while i < self.devices.len()
            invariant
                i <= self.devices.len(),
                descriptor_views(found@) == self@.take(i as int).filter(filter.accepts()),
            decreases self.devices.len() - i,
        {
            let device = &self.devices[i];
            let ghost seen = self@.take(i as int);
            let ghost kept = found@;
            proof {
                assert(self@.take(i + 1) =~= seen.push(device@));
                seen.lemma_filter_push(device@, filter.accepts());
            }
            if filter.matches(device) {
                found.push(device.clone());
                assert(descriptor_views(found@) =~= descriptor_views(kept).push(device@));
            }
            i = i + 1;
        }
        assert(self@.take(i as int) =~= self@);
        found
    }
}

} // verus!
