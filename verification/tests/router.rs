use std::sync::Arc;

use arcgraph_storage::ids::{PartitionId, TenantId};
use arcgraph_storage::router::{
    MultiTenantRouter, MultiTenantRouterBuilder, RoutingError, TenantCatalog,
};

struct Crud;

struct NoopVectorStore;

struct NoopBm25Store;

struct Community(u64);

#[derive(PartialEq, Eq, Debug)]
struct Permissions(u32);

type Provider = fn(TenantId, PartitionId) -> Option<Arc<Community>>;

type Router = MultiTenantRouter<
    Crud,
    NoopVectorStore,
    Community,
    NoopBm25Store,
    Permissions,
    Provider,
    fn() -> Permissions,
>;

type Builder = MultiTenantRouterBuilder<
    Crud,
    NoopVectorStore,
    NoopBm25Store,
    Permissions,
    Provider,
    fn() -> Permissions,
>;

fn no_grants() -> Permissions {
    Permissions(0)
}

fn communities(tenant: TenantId, _partition: PartitionId) -> Option<Arc<Community>> {
    if tenant == TenantId::system() {
        None
    } else {
        Some(Arc::new(Community(tenant.raw() * 10)))
    }
}

fn bootstrapped() -> TenantCatalog {
    TenantCatalog::new(vec![TenantId::default_tenant()])
}

fn make_router_no_vector() -> Router {
    MultiTenantRouter::new(bootstrapped(), Arc::new(Crud), None, no_grants as fn() -> Permissions)
}

#[test]
fn route_default_returns_handle_with_correct_tenant_and_partition() {
    let mut router = make_router_no_vector();
    let h = router
        .route(TenantId::default_tenant(), PartitionId::zero())
        .ok()
        .expect("DEFAULT routes");
    assert_eq!(h.tenant(), TenantId::default_tenant());
    assert_eq!(h.partition(), PartitionId::zero());
    assert!(h.vector().is_none());
}

#[test]
fn route_system_short_circuits_catalog_lookup() {
    let mut router = make_router_no_vector();
    let h = router
        .route(TenantId::system(), PartitionId::zero())
        .ok()
        .expect("SYSTEM allowed");
    assert_eq!(h.tenant(), TenantId::system());
}

#[test]
fn route_unknown_tenant_errors() {
    let mut router = make_router_no_vector();
    let err = router
        .route(TenantId::new(9999), PartitionId::zero())
        .err()
        .expect("unknown tenant must fail");
    assert!(matches!(
        err,
        RoutingError::UnknownTenant { tenant_raw: 9999 }
    ));
}

#[test]
fn route_non_zero_partition_errors() {
    let mut router = make_router_no_vector();
    let err = router
        .route(TenantId::default_tenant(), PartitionId::new(1))
        .err()
        .expect("non-zero partition must fail");
    assert!(matches!(
        err,
        RoutingError::PartitionNotSupported { partition_raw: 1 }
    ));
}

#[test]
fn route_partition_check_runs_before_tenant_check() {
    let mut router = make_router_no_vector();
    let err = router
        .route(TenantId::new(9999), PartitionId::new(2))
        .err()
        .expect("non-zero partition wins over unknown tenant");
    assert!(matches!(
        err,
        RoutingError::PartitionNotSupported { partition_raw: 2 }
    ));
}

#[test]
fn route_caches_handle_arc() {
    let mut router = make_router_no_vector();
    let h1 = router
        .route(TenantId::default_tenant(), PartitionId::zero())
        .ok()
        .expect("first route");
    let h2 = router
        .route(TenantId::default_tenant(), PartitionId::zero())
        .ok()
        .expect("second route");
    assert!(
        Arc::ptr_eq(&h1, &h2),
        "v1.0 cache hit must return the same Arc"
    );
}

#[test]
fn vector_handle_plumbed_through_when_some() {
    let vector = Arc::new(NoopVectorStore);
    let mut router: Router = MultiTenantRouter::new(
        bootstrapped(),
        Arc::new(Crud),
        Some(Arc::clone(&vector)),
        no_grants as fn() -> Permissions,
    );
    let h = router
        .route(TenantId::default_tenant(), PartitionId::zero())
        .ok()
        .expect("route");
    let h_vec = h.vector().expect("Some plumbed through");
    assert!(
        Arc::ptr_eq(h_vec, &vector),
        "router must clone the SAME Arc into the handle"
    );
}

#[test]
fn route_default_returns_handle_with_no_bm25_when_unwired() {
    let mut router = make_router_no_vector();
    let h = router
        .route(TenantId::default_tenant(), PartitionId::zero())
        .ok()
        .expect("DEFAULT routes");
    assert!(
        h.bm25().is_none(),
        "default 3-arg new should leave bm25 unwired"
    );
}

#[test]
fn bm25_handle_plumbed_through_when_some() {
    let bm25 = Arc::new(NoopBm25Store);
    let mut router: Router = MultiTenantRouter::new_with_bm25(
        bootstrapped(),
        Arc::new(Crud),
        None,
        Some(Arc::clone(&bm25)),
        no_grants as fn() -> Permissions,
    );
    let h = router
        .route(TenantId::default_tenant(), PartitionId::zero())
        .ok()
        .expect("route");
    let h_bm25 = h.bm25().expect("Some plumbed through");
    assert!(
        Arc::ptr_eq(h_bm25, &bm25),
        "router must clone the SAME Arc into the handle"
    );
}

#[test]
fn new_with_bm25_threads_both_vector_and_bm25() {
    let vector = Arc::new(NoopVectorStore);
    let bm25 = Arc::new(NoopBm25Store);
    let mut router: Router = MultiTenantRouter::new_with_bm25(
        bootstrapped(),
        Arc::new(Crud),
        Some(Arc::clone(&vector)),
        Some(Arc::clone(&bm25)),
        no_grants as fn() -> Permissions,
    );
    let h = router
        .route(TenantId::default_tenant(), PartitionId::zero())
        .ok()
        .expect("route");
    assert!(
        Arc::ptr_eq(h.vector().expect("vector"), &vector),
        "vector arc"
    );
    assert!(Arc::ptr_eq(h.bm25().expect("bm25"), &bm25), "bm25 arc");
}

#[test]
fn new_three_arg_signature_preserved() {
    let mut router = make_router_no_vector();
    let h = router
        .route(TenantId::default_tenant(), PartitionId::zero())
        .ok()
        .expect("route");
    assert!(h.bm25().is_none());
    assert!(h.vector().is_none());
}

#[test]
fn tenants_passes_through_catalog_list() {
    let router = make_router_no_vector();
    let listed = router.tenants();
    assert_eq!(listed.len(), 1);
    assert_eq!(listed[0], TenantId::default_tenant());
}

#[test]
fn each_tenant_has_its_own_communities() {
    let mut catalog = bootstrapped();
    catalog.add_tenant(TenantId::new(7));
    assert!(catalog.lists(TenantId::new(7)) && !catalog.lists(TenantId::new(8)));
    let crud = Arc::new(Crud);
    let mut router: Router = MultiTenantRouter::with_community(
        catalog,
        Arc::clone(&crud),
        None,
        Some(communities as Provider),
        no_grants as fn() -> Permissions,
    );
    let a = router.route(TenantId::default_tenant(), PartitionId::zero()).ok().unwrap();
    let b = router.route(TenantId::new(7), PartitionId::zero()).ok().unwrap();
    let s = router.route(TenantId::system(), PartitionId::zero()).ok().unwrap();
    assert_eq!(a.community().unwrap().0, TenantId::default_tenant().raw() * 10);
    assert_eq!(b.community().unwrap().0, 70);
    assert!(s.community().is_none());
    assert!(Arc::ptr_eq(b.crud(), &crud) && Arc::ptr_eq(router.crud(), &crud));
    assert_eq!(router.catalog().list_tenants(), vec![TenantId::default_tenant(), TenantId::new(7)]);
    // What is kept for one tenant is not handed to another.
    let again = router.route(TenantId::new(7), PartitionId::zero()).ok().unwrap();
    assert!(Arc::ptr_eq(&again, &b) && !Arc::ptr_eq(&again, &a));
}

#[test]
fn the_last_permissions_of_a_tenant_count() {
    let first = Arc::new(Permissions(1));
    let second = Arc::new(Permissions(2));
    let mut catalog = bootstrapped();
    catalog.add_tenant(TenantId::new(7));
    let builder: Builder =
        MultiTenantRouterBuilder::new(catalog, Arc::new(Crud), no_grants as fn() -> Permissions);
    let mut router: Router = builder
        .permissions(TenantId::new(7), Arc::clone(&first))
        .permissions(TenantId::new(7), Arc::clone(&second))
        .build();
    let h = router.route(TenantId::new(7), PartitionId::zero()).ok().unwrap();
    assert!(Arc::ptr_eq(h.permissions(), &second));
    let d = router.route(TenantId::default_tenant(), PartitionId::zero()).ok().unwrap();
    assert_eq!(**d.permissions(), Permissions(0));
}

#[test]
fn a_builder_adds_each_part() {
    let vector = Arc::new(NoopVectorStore);
    let bm25 = Arc::new(NoopBm25Store);
    let builder: Builder = Router::builder(
        bootstrapped(),
        Arc::new(Crud),
        no_grants as fn() -> Permissions,
    );
    let mut router: Router = builder
        .vector(Arc::clone(&vector))
        .community(communities as Provider)
        .bm25(Arc::clone(&bm25))
        .build();
    let s = router.shape();
    assert!(s.vector && s.community_provider && s.bm25);
    assert_eq!(s.handle_cache_len, 0);
    let h = router.route(TenantId::default_tenant(), PartitionId::zero()).ok().unwrap();
    assert!(Arc::ptr_eq(h.vector().unwrap(), &vector));
    assert!(Arc::ptr_eq(h.bm25().unwrap(), &bm25));
    assert!(h.community().is_some());
    assert_eq!(router.shape().handle_cache_len, 1);
    let plain = make_router_no_vector().shape();
    assert!(!plain.vector && !plain.community_provider && !plain.bm25);
}

#[test]
fn a_refused_route_keeps_nothing() {
    let mut router = make_router_no_vector();
    assert!(router.route(TenantId::new(3), PartitionId::zero()).is_err());
    assert!(router.route(TenantId::system(), PartitionId::new(1)).is_err());
    assert_eq!(router.shape().handle_cache_len, 0);
}
