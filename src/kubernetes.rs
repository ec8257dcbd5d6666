//! The parts of the cluster's `get application -o json` answer that discovery
//! reads.
use vstd::prelude::*;

verus! {

/// The whole answer: a list of application resources.
#[derive(Clone, Debug)]
pub struct KubernetesResponse {
    pub items: Vec<ApplicationResource>,
}

/// A resource's metadata; only its name is read.
#[derive(Clone, Debug)]
pub struct ResourceMetadata {
    pub name: String,
}

/// One application resource.
#[derive(Clone, Debug)]
pub struct ApplicationResource {
    pub spec: ApplicationResourceSpec,
    pub metadata: ResourceMetadata,
}

/// The routable part of an application resource.
#[derive(Clone, Debug)]
pub struct ApplicationResourceSpec {
    pub ingresses: Option<Vec<String>>,
    pub liveness: Option<HealthCheck>,
    pub readiness: Option<HealthCheck>,
}

/// A health-check endpoint of an application.
#[derive(Clone, Debug)]
pub struct HealthCheck {
    pub path: String,
}

} // verus!
