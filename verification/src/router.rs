//! Finding the stores of a tenant.
use std::sync::Arc;

use dashmap::DashMap;
use vstd::prelude::*;

use crate::dash::{places_get, places_insert, places_new, places_of, PlaceKey};
use crate::ids::{PartitionId, TenantId};

verus! {

/// Why a tenant could not be found.
#[derive(Clone, Copy, Debug, PartialEq, Eq, Structural)]
#[allow(inconsistent_fields)]
pub enum RoutingError {
    /// The catalog does not list the tenant.
    UnknownTenant {
        /// The tenant.
        tenant_raw: u64,
    },
    /// There is only the partition zero.
    PartitionNotSupported {
        /// The partition.
        partition_raw: u32,
    },
}

/// The tenants that there are, apart from the system itself.
#[derive(Debug)]
pub struct TenantCatalog {
    /// The tenants, in the order in which they were added.
    pub tenants: Vec<TenantId>,
}

impl TenantCatalog {
    /// A catalog of these tenants.
    pub fn new(tenants: Vec<TenantId>) -> (c: TenantCatalog)
        ensures
            c.tenants@ == tenants@,
    {
        TenantCatalog { tenants }
    }

    /// Adds a tenant.
    pub fn add_tenant(&mut self, tenant: TenantId)
        ensures
            final(self).tenants@ == old(self).tenants@.push(tenant),
    {
        self.tenants.push(tenant);
    }

    /// The tenants.
    pub fn list_tenants(&self) -> (out: Vec<TenantId>)
        ensures
            out@ == self.tenants@,
    {
        let mut out: Vec<TenantId> = Vec::new();
        let mut i: usize = 0;
        while i < self.tenants.len()
            invariant
                i <= self.tenants@.len(),
                out@ == self.tenants@.take(i as int),
            decreases self.tenants@.len() - i,
        {
            out.push(self.tenants[i]);
            i += 1;
            assert(out@ =~= self.tenants@.take(i as int));
        }
        assert(self.tenants@.take(i as int) =~= self.tenants@);
        out
    }

    /// Whether the catalog lists the tenant.
    pub fn lists(&self, tenant: TenantId) -> (r: bool)
        ensures
            r == self.tenants@.contains(tenant),
    {
        let mut i: usize = 0;
        while i < self.tenants.len()
            invariant
                i <= self.tenants@.len(),
                forall|j: int| 0 <= j < i ==> self.tenants@[j] != tenant,
            decreases self.tenants@.len() - i,
        {
            if self.tenants[i] == tenant {
                return true;
            }
            i += 1;
        }
        false
    }
}

/// The stores of one tenant.
pub struct TenantHandle<C, V, M, B, P> {
    /// The tenant.
    pub tenant_id: TenantId,
    /// The partition.
    pub partition_id: PartitionId,
    /// The records.
    pub crud: Arc<C>,
    /// The vectors, if there are any.
    pub vector: Option<Arc<V>>,
    /// The communities, if there are any.
    pub community: Option<Arc<M>>,
    /// The text index, if there is one.
    pub bm25: Option<Arc<B>>,
    /// The permissions.
    pub permissions: Arc<P>,
}

impl<C, V, M, B, P> TenantHandle<C, V, M, B, P> {
    /// The tenant.
    pub fn tenant(&self) -> (t: TenantId)
        ensures
            t == self.tenant_id,
    {
        self.tenant_id
    }

    /// The partition.
    pub fn partition(&self) -> (p: PartitionId)
        ensures
            p == self.partition_id,
    {
        self.partition_id
    }

    /// The records.
    pub fn crud(&self) -> (c: &Arc<C>)
        ensures
            *c == self.crud,
    {
        &self.crud
    }

    /// The vectors, if there are any.
    pub fn vector(&self) -> (v: Option<&Arc<V>>)
        ensures
            match v {
                Some(a) => self.vector == Some(*a),
                None => self.vector is None,
            },
    {
        self.vector.as_ref()
    }

    /// The communities, if there are any.
    pub fn community(&self) -> (m: Option<&Arc<M>>)
        ensures
            match m {
                Some(a) => self.community == Some(*a),
                None => self.community is None,
            },
    {
        self.community.as_ref()
    }

    /// The text index, if there is one.
    pub fn bm25(&self) -> (b: Option<&Arc<B>>)
        ensures
            match b {
                Some(a) => self.bm25 == Some(*a),
                None => self.bm25 is None,
            },
    {
        self.bm25.as_ref()
    }

    /// The permissions.
    pub fn permissions(&self) -> (p: &Arc<P>)
        ensures
            *p == self.permissions,
    {
        &self.permissions
    }
}

/// Why a tenant's stores are not to be found.
pub open spec fn routing_error(
    tenants: Seq<TenantId>,
    tenant: TenantId,
    partition: PartitionId,
) -> Option<RoutingError> {
    if partition.0 != 0 {
        Some(RoutingError::PartitionNotSupported { partition_raw: partition.0 })
    } else if tenant.0 != 0 && !tenants.contains(tenant) {
        Some(RoutingError::UnknownTenant { tenant_raw: tenant.0 })
    } else {
        None
    }
}

/// The last permissions of a list that are meant for a tenant.
pub open spec fn last_for<P>(list: Seq<(TenantId, Arc<P>)>, tenant: TenantId) -> Option<Arc<P>>
    decreases list.len(),
{
    if list.len() == 0 {
        None
    } else if list.last().0 == tenant {
        Some(list.last().1)
    } else {
        last_for(list.drop_last(), tenant)
    }
}

/// Finds the stores of a tenant. A tenant's stores are put together once and
/// then kept. `F` gives the communities of a tenant, `G` makes empty
/// permissions.
pub struct MultiTenantRouter<C, V, M, B, P, F, G> {
    catalog: TenantCatalog,
    crud: Arc<C>,
    vector: Option<Arc<V>>,
    community_provider: Option<F>,
    bm25: Option<Arc<B>>,
    fresh_permissions: G,
    handle_cache: DashMap<PlaceKey, usize>,
    handles: Vec<Arc<TenantHandle<C, V, M, B, P>>>,
    permissions_override: DashMap<PlaceKey, usize>,
    overrides: Vec<Arc<P>>,
}

/// Which of its parts a router has, and for how many places it keeps stores.
#[derive(Clone, Copy, Debug, PartialEq, Eq, Structural)]
pub struct RouterShape {
    /// Whether there are vectors.
    pub vector: bool,
    /// Whether something gives the communities.
    pub community_provider: bool,
    /// Whether there is a text index.
    pub bm25: bool,
    /// The number of places that stores are kept for.
    pub handle_cache_len: usize,
}

/// Puts a router together.
pub struct MultiTenantRouterBuilder<C, V, B, P, F, G> {
    /// The tenants.
    pub catalog: TenantCatalog,
    /// The records.
    pub crud: Arc<C>,
    /// The vectors, if there are any.
    pub vector: Option<Arc<V>>,
    /// What gives the communities, if there are any.
    pub community_provider: Option<F>,
    /// The text index, if there is one.
    pub bm25: Option<Arc<B>>,
    /// What makes empty permissions.
    pub fresh_permissions: G,
    /// Permissions that tenants have from the start.
    pub permissions_override: Vec<(TenantId, Arc<P>)>,
}

fn share<T>(a: &Option<Arc<T>>) -> (r: Option<Arc<T>>)
    ensures
        r == *a,
{
    match a {
        Some(x) => Some(x.clone()),
        None => None,
    }
}

impl<C, V, M, B, P, F, G> MultiTenantRouter<C, V, M, B, P, F, G> where
    F: Fn(TenantId, PartitionId) -> Option<Arc<M>>,
    G: Fn() -> P,
 {
    /// The tenants.
    pub closed spec fn listed(self) -> Seq<TenantId> {
        self.catalog.tenants@
    }

    /// The records.
    pub closed spec fn records(self) -> Arc<C> {
        self.crud
    }

    /// The vectors.
    pub closed spec fn vectors(self) -> Option<Arc<V>> {
        self.vector
    }

    /// The text index.
    pub closed spec fn texts(self) -> Option<Arc<B>> {
        self.bm25
    }

    /// What gives the communities.
    pub closed spec fn provider(self) -> Option<F> {
        self.community_provider
    }

    /// What makes empty permissions.
    pub closed spec fn fresh(self) -> G {
        self.fresh_permissions
    }

    /// The permissions that a tenant has from the start.
    pub closed spec fn override_for(self, tenant: TenantId) -> Option<Arc<P>> {
        if places_of(self.permissions_override).contains_key((tenant.0, 0)) {
            Some(self.overrides@[places_of(self.permissions_override)[(tenant.0, 0)] as int])
        } else {
            None
        }
    }

    /// The stores that are kept for a place.
    pub closed spec fn kept(self, tenant: TenantId, partition: PartitionId) -> Option<
        Arc<TenantHandle<C, V, M, B, P>>,
    > {
        if places_of(self.handle_cache).contains_key((tenant.0, partition.0)) {
            Some(self.handles@[places_of(self.handle_cache)[(tenant.0, partition.0)] as int])
        } else {
            None
        }
    }

    /// The numbers in the maps are those of the lists, and what is kept for a
    /// place is that place's.
    pub closed spec fn wf(self) -> bool {
        &&& forall|k: PlaceKey| #[trigger]
            places_of(self.handle_cache).contains_key(k) ==> {
                &&& places_of(self.handle_cache)[k] < self.handles@.len()
                &&& self.handles@[places_of(self.handle_cache)[k] as int].tenant_id.0 == k.0
                &&& self.handles@[places_of(self.handle_cache)[k] as int].partition_id.0 == k.1
            }
        &&& forall|k: PlaceKey| #[trigger]
            places_of(self.permissions_override).contains_key(k)
                ==> places_of(self.permissions_override)[k] < self.overrides@.len()
    }

    /// The communities and empty permissions can be asked for.
    pub open spec fn ready(self) -> bool {
        &&& self.provider() matches Some(f) ==> forall|t: TenantId, p: PartitionId| #[trigger]
            call_requires(f, (t, p))
        &&& call_requires(self.fresh(), ())
    }

    /// The stores that are put together for a place that none are kept for.
    pub open spec fn put_together(
        self,
        tenant: TenantId,
        partition: PartitionId,
        h: TenantHandle<C, V, M, B, P>,
    ) -> bool {
        &&& h.tenant_id == tenant
        &&& h.partition_id == partition
        &&& h.crud == self.records()
        &&& h.vector == self.vectors()
        &&& h.bm25 == self.texts()
        &&& match self.provider() {
            Some(f) => call_ensures(f, (tenant, partition), h.community),
            None => h.community is None,
        }
        &&& match self.override_for(tenant) {
            Some(p) => h.permissions == p,
            None => call_ensures(self.fresh(), (), *h.permissions),
        }
    }

    /// What a router is made of stays as it is.
    pub open spec fn same_parts(self, other: Self) -> bool {
        &&& self.listed() == other.listed()
        &&& self.records() == other.records()
        &&& self.vectors() == other.vectors()
        &&& self.texts() == other.texts()
        &&& self.provider() == other.provider()
        &&& self.fresh() == other.fresh()
        &&& forall|t: TenantId| #[trigger] self.override_for(t) == other.override_for(t)
    }

    /// A builder with the stores that every router has.
    pub fn builder(catalog: TenantCatalog, crud: Arc<C>, fresh_permissions: G) -> (b:
        MultiTenantRouterBuilder<C, V, B, P, F, G>)
        ensures
            b.catalog == catalog,
            b.crud == crud,
            b.fresh_permissions == fresh_permissions,
            b.vector is None,
            b.community_provider is None,
            b.bm25 is None,
            b.permissions_override@.len() == 0,
    {
        MultiTenantRouterBuilder::new(catalog, crud, fresh_permissions)
    }

    /// A router without communities and without a text index.
    pub fn new(
        catalog: TenantCatalog,
        crud: Arc<C>,
        vector: Option<Arc<V>>,
        fresh_permissions: G,
    ) -> (r: Self)
        ensures
            r.made_of(catalog, crud, vector, None, None, fresh_permissions),
    {
        MultiTenantRouter::new_with_community_and_bm25(
            catalog,
            crud,
            vector,
            None,
            None,
            fresh_permissions,
        )
    }

    /// A router without a text index.
    pub fn with_community(
        catalog: TenantCatalog,
        crud: Arc<C>,
        vector: Option<Arc<V>>,
        community_provider: Option<F>,
        fresh_permissions: G,
    ) -> (r: Self)
        ensures
            r.made_of(catalog, crud, vector, community_provider, None, fresh_permissions),
    {
        MultiTenantRouter::new_with_community_and_bm25(
            catalog,
            crud,
            vector,
            community_provider,
            None,
            fresh_permissions,
        )
    }

    /// A router without communities.
    pub fn new_with_bm25(
        catalog: TenantCatalog,
        crud: Arc<C>,
        vector: Option<Arc<V>>,
        bm25: Option<Arc<B>>,
        fresh_permissions: G,
    ) -> (r: Self)
        ensures
            r.made_of(catalog, crud, vector, None, bm25, fresh_permissions),
    {
        MultiTenantRouter::new_with_community_and_bm25(
            catalog,
            crud,
            vector,
            None,
            bm25,
            fresh_permissions,
        )
    }

    /// A router with all of its parts.
    pub fn new_with_community_and_bm25(
        catalog: TenantCatalog,
        crud: Arc<C>,
        vector: Option<Arc<V>>,
        community_provider: Option<F>,
        bm25: Option<Arc<B>>,
        fresh_permissions: G,
    ) -> (r: Self)
        ensures
            r.made_of(catalog, crud, vector, community_provider, bm25, fresh_permissions),
    {
        let mut b: MultiTenantRouterBuilder<C, V, B, P, F, G> = MultiTenantRouterBuilder::new(
            catalog,
            crud,
            fresh_permissions,
        );
        if let Some(v) = vector {
            b = b.vector(v);
        }
        if let Some(p) = community_provider {
            b = b.community(p);
        }
        if let Some(t) = bm25 {
            b = b.bm25(t);
        }
        let r = b.build();
        proof {
            assert forall|t: TenantId| #[trigger] r.override_for(t) is None by {
                assert(last_for(b.permissions_override@, t) is None);
            }
        }
        r
    }

    /// A fresh router with these parts: nothing is kept yet, and no tenant has
    /// permissions from the start.
    pub open spec fn made_of(
        self,
        catalog: TenantCatalog,
        crud: Arc<C>,
        vector: Option<Arc<V>>,
        community_provider: Option<F>,
        bm25: Option<Arc<B>>,
        fresh_permissions: G,
    ) -> bool {
        &&& self.wf()
        &&& self.kept_count() == 0
        &&& self.listed() == catalog.tenants@
        &&& self.records() == crud
        &&& self.vectors() == vector
        &&& self.provider() == community_provider
        &&& self.texts() == bm25
        &&& self.fresh() == fresh_permissions
        &&& forall|t: TenantId| #[trigger] self.override_for(t) is None
        &&& forall|t: TenantId, p: PartitionId| #[trigger] self.kept(t, p) is None
    }

    /// The stores of a tenant. The partition is checked first, then the tenant;
    /// the system itself is always there. What was put together once is given
    /// again.
    pub fn route(&mut self, tenant: TenantId, partition: PartitionId) -> (r: Result<
        Arc<TenantHandle<C, V, M, B, P>>,
        RoutingError,
    >)
        requires
            old(self).wf(),
            old(self).ready(),
        ensures
            final(self).wf(),
            final(self).same_parts(*old(self)),
            r matches Err(e) ==> routing_error(old(self).listed(), tenant, partition) == Some(e),
            r is Ok <==> routing_error(old(self).listed(), tenant, partition) is None,
            r matches Ok(h) ==> {
                &&& final(self).kept(tenant, partition) == Some(h)
                &&& h.tenant_id == tenant && h.partition_id == partition
                &&& match old(self).kept(tenant, partition) {
                    Some(g) => h == g,
                    None => old(self).put_together(tenant, partition, *h),
                }
            },
            forall|t: TenantId, p: PartitionId|
                (r is Err || t != tenant || p != partition) ==> #[trigger] final(self).kept(t, p)
                    == old(self).kept(t, p),
            final(self).kept_count() == old(self).kept_count() + if r is Ok && old(self).kept(
                tenant,
                partition,
            ) is None {
                1nat
            } else {
                0nat
            },
    {
        if partition != PartitionId::zero() {
            return Err(RoutingError::PartitionNotSupported { partition_raw: partition.raw() });
        }
        if tenant != TenantId::system() {
            if !self.catalog.lists(tenant) {
                return Err(RoutingError::UnknownTenant { tenant_raw: tenant.raw() });
            }
        }
        let key: PlaceKey = (tenant.0, partition.0);
        match places_get(&self.handle_cache, key) {
            Some(i) => {
                return Ok(self.handles[i].clone());
            },
            None => {},
        }
        let community = match &self.community_provider {
            Some(provider) => provider(tenant, partition),
            None => None,
        };
        let permissions = match places_get(&self.permissions_override, (tenant.0, 0)) {
            Some(i) => self.overrides[i].clone(),
            None => Arc::new((self.fresh_permissions)()),
        };
        let handle = Arc::new(
            TenantHandle {
                tenant_id: tenant,
                partition_id: partition,
                crud: self.crud.clone(),
                vector: share(&self.vector),
                community,
                bm25: share(&self.bm25),
                permissions,
            },
        );
        let ghost before = *self;
        let n: usize = self.handles.len();
        self.handles.push(handle.clone());
        places_insert(&mut self.handle_cache, key, n);
        proof {
            assert forall|t: TenantId, p: PartitionId|
                (t != tenant || p != partition) implies #[trigger] self.kept(t, p) == before.kept(
                t,
                p,
            ) by {
                let k = (t.0, p.0);
                if places_of(before.handle_cache).contains_key(k) {
                    assert(places_of(before.handle_cache)[k] < n);
                }
            }
            assert forall|k: PlaceKey| #[trigger]
                places_of(self.handle_cache).contains_key(k) implies {
                &&& places_of(self.handle_cache)[k] < self.handles@.len()
                &&& self.handles@[places_of(self.handle_cache)[k] as int].tenant_id.0 == k.0
                &&& self.handles@[places_of(self.handle_cache)[k] as int].partition_id.0 == k.1
            } by {
                if k != key {
                    assert(places_of(before.handle_cache).contains_key(k));
                }
            }
        }
        Ok(handle)
    }

    /// The number of places that stores are kept for.
    pub closed spec fn kept_count(self) -> nat {
        self.handles@.len()
    }

    /// The tenants.
    pub fn tenants(&self) -> (out: Vec<TenantId>)
        ensures
            out@ == self.listed(),
    {
        self.catalog.list_tenants()
    }

    /// The catalog of the tenants.
    pub fn catalog(&self) -> (c: &TenantCatalog)
        ensures
            c.tenants@ == self.listed(),
    {
        &self.catalog
    }

    /// The records.
    pub fn crud(&self) -> (c: &Arc<C>)
        ensures
            *c == self.records(),
    {
        &self.crud
    }

    /// Which parts the router has, and for how many places it keeps stores.
    pub fn shape(&self) -> (s: RouterShape)
        ensures
            s.vector == (self.vectors() is Some),
            s.community_provider == (self.provider() is Some),
            s.bm25 == (self.texts() is Some),
            s.handle_cache_len == self.kept_count(),
    {
        RouterShape {
            vector: self.vector.is_some(),
            community_provider: self.community_provider.is_some(),
            bm25: self.bm25.is_some(),
            handle_cache_len: self.handles.len(),
        }
    }
}

/// The router that a builder puts together.
pub open spec fn built_from<C, V, M, B, P, F, G>(
    r: MultiTenantRouter<C, V, M, B, P, F, G>,
    b: MultiTenantRouterBuilder<C, V, B, P, F, G>,
) -> bool where
    F: Fn(TenantId, PartitionId) -> Option<Arc<M>>,
    G: Fn() -> P,
 {
    &&& r.wf()
    &&& r.kept_count() == 0
    &&& r.listed() == b.catalog.tenants@
    &&& r.records() == b.crud
    &&& r.vectors() == b.vector
    &&& r.texts() == b.bm25
    &&& r.provider() == b.community_provider
    &&& r.fresh() == b.fresh_permissions
    &&& forall|t: TenantId| #[trigger] r.override_for(t) == last_for(b.permissions_override@, t)
    &&& forall|t: TenantId, p: PartitionId| #[trigger] r.kept(t, p) is None
}

impl<C, V, B, P, F, G> MultiTenantRouterBuilder<C, V, B, P, F, G> {
    /// A builder with the stores that every router has.
    pub fn new(catalog: TenantCatalog, crud: Arc<C>, fresh_permissions: G) -> (b: Self)
        ensures
            b.catalog == catalog,
            b.crud == crud,
            b.fresh_permissions == fresh_permissions,
            b.vector is None,
            b.community_provider is None,
            b.bm25 is None,
            b.permissions_override@.len() == 0,
    {
        MultiTenantRouterBuilder {
            catalog,
            crud,
            vector: None,
            community_provider: None,
            bm25: None,
            fresh_permissions,
            permissions_override: Vec::new(),
        }
    }

    /// Gives a tenant permissions from the start. The last ones count.
    pub fn permissions(self, tenant: TenantId, index: Arc<P>) -> (b: Self)
        ensures
            b.permissions_override@ == self.permissions_override@.push((tenant, index)),
            b.catalog == self.catalog && b.crud == self.crud && b.vector == self.vector,
            b.community_provider == self.community_provider && b.bm25 == self.bm25,
            b.fresh_permissions == self.fresh_permissions,
    {
        let mut b = self;
        b.permissions_override.push((tenant, index));
        b
    }

    /// Adds the vectors.
    pub fn vector(self, vector: Arc<V>) -> (b: Self)
        ensures
            b == (MultiTenantRouterBuilder { vector: Some(vector), ..self }),
    {
        MultiTenantRouterBuilder { vector: Some(vector), ..self }
    }

    /// Adds what gives the communities.
    pub fn community(self, provider: F) -> (b: Self)
        ensures
            b == (MultiTenantRouterBuilder { community_provider: Some(provider), ..self }),
    {
        MultiTenantRouterBuilder { community_provider: Some(provider), ..self }
    }

    /// Adds the text index.
    pub fn bm25(self, bm25: Arc<B>) -> (b: Self)
        ensures
            b == (MultiTenantRouterBuilder { bm25: Some(bm25), ..self }),
    {
        MultiTenantRouterBuilder { bm25: Some(bm25), ..self }
    }

    /// Puts the router together.
    pub fn build<M>(self) -> (r: MultiTenantRouter<C, V, M, B, P, F, G>) where
        F: Fn(TenantId, PartitionId) -> Option<Arc<M>>,
        G: Fn() -> P,

        ensures
            built_from(r, self),
    {
        let ghost list = self.permissions_override@;
        let mut numbers = places_new();
        let mut overrides: Vec<Arc<P>> = Vec::new();
        let mut i: usize = 0;
        assert(list.take(0) =~= Seq::<(TenantId, Arc<P>)>::empty());
        while i < self.permissions_override.len()
            invariant
                list == self.permissions_override@,
                i <= list.len(),
                overrides@.len() == i,
                forall|k: PlaceKey| #[trigger]
                    places_of(numbers).contains_key(k) ==> places_of(numbers)[k] < i,
                forall|t: TenantId| #[trigger]
                    last_for(list.take(i as int), t) == if places_of(numbers).contains_key(
                        (t.0, 0),
                    ) {
                        Some(overrides@[places_of(numbers)[(t.0, 0)] as int])
                    } else {
                        None
                    },
            decreases list.len() - i,
        {
            let tenant = self.permissions_override[i].0;
            let ghost before = places_of(numbers);
            let ghost old_overrides = overrides@;
            overrides.push(self.permissions_override[i].1.clone());
            places_insert(&mut numbers, (tenant.0, 0), i);
            proof {
                assert(list.take(i + 1).drop_last() =~= list.take(i as int));
                assert(list.take(i + 1).last() == list[i as int]);
                assert forall|t: TenantId| #[trigger]
                    last_for(list.take(i + 1), t) == if places_of(numbers).contains_key((t.0, 0)) {
                        Some(overrides@[places_of(numbers)[(t.0, 0)] as int])
                    } else {
                        None
                    } by {
                    assert(last_for(list.take(i as int), t) == if before.contains_key((t.0, 0)) {
                        Some(old_overrides[before[(t.0, 0)] as int])
                    } else {
                        None
                    });
                    if t != tenant && before.contains_key((t.0, 0)) {
                        assert(before[(t.0, 0)] < i);
                    }
                }
            }
            i += 1;
        }
        assert(list.take(i as int) =~= list);
        MultiTenantRouter {
            catalog: self.catalog,
            crud: self.crud,
            vector: self.vector,
            community_provider: self.community_provider,
            bm25: self.bm25,
            fresh_permissions: self.fresh_permissions,
            handle_cache: places_new(),
            handles: Vec::new(),
            permissions_override: numbers,
            overrides,
        }
    }
}

/// Which tenants are found: the system and the listed ones, in the partition zero
/// alone. The partition is looked at first.
pub proof fn law_routing(tenants: Seq<TenantId>, tenant: TenantId, partition: PartitionId)
    ensures
        routing_error(tenants, tenant, partition) is None <==> partition.0 == 0 && (tenant.0 == 0
            || exists|i: int| 0 <= i < tenants.len() && #[trigger] tenants[i] == tenant),
        partition.0 != 0 ==> routing_error(tenants, tenant, partition) == Some(
            RoutingError::PartitionNotSupported { partition_raw: partition.0 },
        ),
        partition.0 == 0 && routing_error(tenants, tenant, partition) is Some ==> routing_error(
            tenants,
            tenant,
            partition,
        ) == Some(RoutingError::UnknownTenant { tenant_raw: tenant.0 }),
{
}

/// Of several permissions for one tenant the last count.
pub proof fn law_last_permissions_count<P>(
    list: Seq<(TenantId, Arc<P>)>,
    tenant: TenantId,
    i: int,
)
    requires
        0 <= i < list.len(),
        list[i].0 == tenant,
        forall|j: int| i < j < list.len() ==> (#[trigger] list[j]).0 != tenant,
    ensures
        last_for(list, tenant) == Some(list[i].1),
    decreases list.len(),
{
    if i < list.len() - 1 {
        let front = list.drop_last();
        assert(list[list.len() - 1].0 != tenant);
        assert forall|j: int| i < j < front.len() implies (#[trigger] front[j]).0 != tenant by {
            assert(front[j] == list[j]);
        }
        law_last_permissions_count(front, tenant, i);
    }
}

/// A tenant that no permissions are meant for has none.
pub proof fn law_no_permissions<P>(list: Seq<(TenantId, Arc<P>)>, tenant: TenantId)
    requires
        forall|j: int| 0 <= j < list.len() ==> (#[trigger] list[j]).0 != tenant,
    ensures
        last_for(list, tenant) is None,
    decreases list.len(),
{
    if list.len() > 0 {
        let front = list.drop_last();
        assert(list[list.len() - 1].0 != tenant);
        assert forall|j: int| 0 <= j < front.len() implies (#[trigger] front[j]).0 != tenant by {
            assert(front[j] == list[j]);
        }
        law_no_permissions(front, tenant);
    }
}

/// What a new router puts together for a place is made of what its builder was
/// given: the records, the vectors and the text index as they are, the communities
/// that the provider names for this very place, and the tenant's last permissions,
/// or new ones where it has none.
pub proof fn law_routed_parts<C, V, M, B, P, F, G>(
    r: MultiTenantRouter<C, V, M, B, P, F, G>,
    b: MultiTenantRouterBuilder<C, V, B, P, F, G>,
    tenant: TenantId,
    partition: PartitionId,
    h: TenantHandle<C, V, M, B, P>,
) where F: Fn(TenantId, PartitionId) -> Option<Arc<M>>, G: Fn() -> P
    requires
        built_from(r, b),
        r.put_together(tenant, partition, h),
    ensures
        r.listed() == b.catalog.tenants@,
        r.kept(tenant, partition) is None,
        r.kept_count() == 0,
        h.tenant_id == tenant,
        h.partition_id == partition,
        h.crud == b.crud,
        h.vector == b.vector,
        h.bm25 == b.bm25,
        b.community_provider is None ==> h.community is None,
        b.community_provider matches Some(f) ==> call_ensures(f, (tenant, partition), h.community),
        forall|i: int|
            0 <= i < b.permissions_override@.len() && (#[trigger] b.permissions_override@[i]).0
                == tenant && (forall|j: int|
                i < j < b.permissions_override@.len() ==> (#[trigger] b.permissions_override@[j]).0
                    != tenant) ==> h.permissions == b.permissions_override@[i].1,
        (forall|i: int|
            0 <= i < b.permissions_override@.len() ==> (#[trigger] b.permissions_override@[i]).0
                != tenant) ==> call_ensures(b.fresh_permissions, (), *h.permissions),
{
    let list = b.permissions_override@;
    assert(r.override_for(tenant) == last_for(list, tenant));
    assert forall|i: int|
        0 <= i < list.len() && (#[trigger] list[i]).0 == tenant && (forall|j: int|
            i < j < list.len() ==> (#[trigger] list[j]).0 != tenant) implies h.permissions
        == list[i].1 by {
        law_last_permissions_count(list, tenant, i);
    }
    if forall|i: int| 0 <= i < list.len() ==> (#[trigger] list[i]).0 != tenant {
        law_no_permissions(list, tenant);
    }
}

/// A router whose parts stay as they are puts together the same things.
pub proof fn law_parts_stay<C, V, M, B, P, F, G>(
    r: MultiTenantRouter<C, V, M, B, P, F, G>,
    s: MultiTenantRouter<C, V, M, B, P, F, G>,
    tenant: TenantId,
    partition: PartitionId,
    h: TenantHandle<C, V, M, B, P>,
) where F: Fn(TenantId, PartitionId) -> Option<Arc<M>>, G: Fn() -> P
    requires
        s.same_parts(r),
    ensures
        s.listed() == r.listed(),
        s.put_together(tenant, partition, h) <==> r.put_together(tenant, partition, h),
{
    assert(s.override_for(tenant) == r.override_for(tenant));
}

/// A router that is made of its parts directly is the one that a builder with
/// these parts, and without permissions, puts together.
pub proof fn law_made_of_parts<C, V, M, B, P, F, G>(
    r: MultiTenantRouter<C, V, M, B, P, F, G>,
    b: MultiTenantRouterBuilder<C, V, B, P, F, G>,
) where F: Fn(TenantId, PartitionId) -> Option<Arc<M>>, G: Fn() -> P
    requires
        r.made_of(b.catalog, b.crud, b.vector, b.community_provider, b.bm25, b.fresh_permissions),
        b.permissions_override@.len() == 0,
    ensures
        built_from(r, b),
{
}

} // verus!
