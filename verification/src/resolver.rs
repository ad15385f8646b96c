//! The resolver: the monitors of all services and the decisions of the
//! configuration update loop.

use vstd::prelude::*;
use crate::args::Args;
use crate::args::ArgsView;
use crate::connection::Connection;
use crate::election::output_of;
use crate::error::Error;
use crate::error::ErrorView;
use crate::fleet::index_of;
use crate::monitor::claimed;
use crate::monitor::unclaimed;
use crate::monitor::Delta;
use crate::monitor::Monitor;
use crate::monitor::MonitorView;
use crate::node::node_views;
use crate::node::Node;
use crate::node::NodeView;
use crate::params::PathParams;
use crate::services::Service;

verus! {

/// What wakes the update loop.
#[derive(Debug, Clone, Copy, PartialEq, Eq, Structural)]
pub enum Events {
    /// The resolver started; the first update is due.
    Start,
    /// The update period elapsed.
    Update,
}

impl Events {
    /// Whether the event calls for the first update.
    pub open spec fn spec_is_first(&self) -> bool {
        *self == Events::Start
    }

    /// Tells whether the event calls for the first update.
    #[verifier::when_used_as_spec(spec_is_first)]
    pub fn is_first(&self) -> (b: bool)
        ensures
            b == self.spec_is_first(),
    {
        match self {
            Events::Start => true,
            Events::Update => false,
        }
    }
}

/// Where an update takes the configuration from.
#[derive(Debug, Clone, Copy, PartialEq, Eq, Structural)]
pub enum UpdateSource {
    /// The configuration file that the user supplied at startup.
    UserConfig,
    /// Nowhere: this update does nothing.
    Skip,
    /// The encrypted bundle, which is to be fetched.
    AutoUpdate,
    /// The local configuration: the global one, else the bundled default.
    LocalConfig,
}

/// How the fetch of the encrypted bundle ended.
#[derive(Debug, Clone, Copy, PartialEq, Eq, Structural)]
pub enum BundleOutcome {
    /// A bundle came that differs from the last one seen.
    Changed,
    /// The bundle that came is the last one seen.
    Unchanged,
    /// No bundle could be had.
    Failed,
}

/// What an update does once the fetch of the bundle has ended.
#[derive(Debug, Clone, Copy, PartialEq, Eq, Structural)]
pub enum UpdateAction {
    /// Decrypt and read the bundle and reconcile the fleet with it.
    Apply,
    /// Leave everything as it is.
    Skip,
    /// Reconcile the fleet with the local configuration instead.
    Fallback,
    /// Give up on this update; the fleet stays as it is.
    Fail,
}

/// The source of an update: a configuration supplied by the user is used,
/// on the first update only; else the bundle is fetched if updates are
/// polled; else the local configuration is used.
pub open spec fn update_source(first_update: bool, user_config: bool, auto_update: bool) -> UpdateSource {
    if user_config {
        if first_update {
            UpdateSource::UserConfig
        } else {
            UpdateSource::Skip
        }
    } else if auto_update {
        UpdateSource::AutoUpdate
    } else {
        UpdateSource::LocalConfig
    }
}

/// What follows the fetch of the bundle: a changed bundle is applied, an
/// unchanged one changes nothing, and a failure is made up for by the local
/// configuration on the first update only.
pub open spec fn update_action(first_update: bool, outcome: BundleOutcome) -> UpdateAction {
    match outcome {
        BundleOutcome::Changed => UpdateAction::Apply,
        BundleOutcome::Unchanged => UpdateAction::Skip,
        BundleOutcome::Failed => if first_update {
            UpdateAction::Fallback
        } else {
            UpdateAction::Fail
        },
    }
}

/// The resolver: one monitor for each service.
#[derive(Debug)]
pub struct Resolver {
    args: Args,
    kaspa: Monitor,
    sparkle: Monitor,
}

/// The mathematical value of a [`Resolver`].
pub struct ResolverView {
    pub args: ArgsView,
    pub kaspa: MonitorView,
    pub sparkle: MonitorView,
}

impl View for Resolver {
    type V = ResolverView;

    closed spec fn view(&self) -> ResolverView {
        ResolverView { args: self.args@, kaspa: self.kaspa@, sparkle: self.sparkle@ }
    }
}

impl ResolverView {
    /// Each monitor is consistent and watches its own service.
    pub open spec fn wf(self) -> bool {
        &&& self.kaspa.wf()
        &&& self.sparkle.wf()
        &&& self.kaspa.service == Service::Kaspa
        &&& self.sparkle.service == Service::Sparkle
    }

    /// Whether a list of descriptors asks of either monitor for a connection
    /// that cannot be made.
    pub open spec fn refuses(self, list: Seq<NodeView>) -> bool {
        self.kaspa.refuses(list) || self.sparkle.refuses(list)
    }

    /// The identities of all connections, those of the first service first.
    pub open spec fn listing(self) -> Seq<u64> {
        self.kaspa.listing() + self.sparkle.listing()
    }
}

/// What a reconciliation of all fleets asks of whoever runs the connections.
#[derive(Debug)]
pub struct Reconciled {
    /// The connections of the first service to start and to stop.
    pub kaspa: Delta,
    /// The connections of the second service to start and to stop.
    pub sparkle: Delta,
    /// The descriptors that no monitor claimed.
    pub dangling: Vec<Node>,
}

impl Resolver {
    /// The state of the resolver is consistent.
    pub open spec fn wf(&self) -> bool {
        self@.wf()
    }

    /// Creates the resolver with an empty monitor for each service.
    pub fn try_new(args: Args) -> (r: Result<Resolver, Error>)
        ensures
            r matches Ok(resolver) && resolver.wf() && resolver@.args == args@
                && resolver@.kaspa == crate::monitor::fresh_monitor(args.verbose, Service::Kaspa)
                && resolver@.sparkle == crate::monitor::fresh_monitor(
                args.verbose,
                Service::Sparkle,
            ),
    {
        let kaspa = Monitor::new(&args, Service::Kaspa);
        let sparkle = Monitor::new(&args, Service::Sparkle);
        Ok(Resolver { args, kaspa, sparkle })
    }

    /// Returns the settings of the run.
    pub fn args(&self) -> (args: &Args)
        ensures
            args@ == self@.args,
    {
        &self.args
    }

    /// Returns the monitor of a service.
    pub fn monitor(&self, service: Service) -> (m: &Monitor)
        ensures
            m@ == (match service {
                Service::Kaspa => self@.kaspa,
                Service::Sparkle => self@.sparkle,
            }),
    {
        match service {
            Service::Kaspa => &self.kaspa,
            Service::Sparkle => &self.sparkle,
        }
    }

    /// Returns the monitor of a service for changes.
    pub fn monitor_mut(&mut self, service: Service) -> (m: &mut Monitor)
        ensures
            m@ == (match service {
                Service::Kaspa => old(self)@.kaspa,
                Service::Sparkle => old(self)@.sparkle,
            }),
            final(self)@ == (match service {
                Service::Kaspa => ResolverView { kaspa: final(m)@, ..old(self)@ },
                Service::Sparkle => ResolverView { sparkle: final(m)@, ..old(self)@ },
            }),
    {
        match service {
            Service::Kaspa => &mut self.kaspa,
            Service::Sparkle => &mut self.sparkle,
        }
    }

    /// Decides where an update takes the configuration from.
    pub fn plan_update(&self, first_update: bool, user_config: bool) -> (source: UpdateSource)
        ensures
            source == update_source(first_update, user_config, self@.args.auto_update),
    {
        if user_config {
            if first_update {
                UpdateSource::UserConfig
            } else {
                UpdateSource::Skip
            }
        } else if self.args.auto_update {
            UpdateSource::AutoUpdate
        } else {
            UpdateSource::LocalConfig
        }
    }

    /// Decides what an update does once the fetch of the bundle has ended.
    pub fn after_fetch(first_update: bool, outcome: BundleOutcome) -> (action: UpdateAction)
        ensures
            action == update_action(first_update, outcome),
    {
        match outcome {
            BundleOutcome::Changed => UpdateAction::Apply,
            BundleOutcome::Unchanged => UpdateAction::Skip,
            BundleOutcome::Failed => if first_update {
                UpdateAction::Fallback
            } else {
                UpdateAction::Fail
            },
        }
    }

    /// Reconciles the fleet of every service with a new list of
    /// descriptors: each monitor takes the descriptors of its service; what
    /// is left over is handed back as dangling. If the list asks of either
    /// monitor for a connection that cannot be made, that is an error and
    /// every fleet stays as it is.
    pub fn update_nodes(&mut self, global_node_list: Vec<Node>) -> (r: Result<Reconciled, Error>)
        requires
            old(self).wf(),
        ensures
            final(self).wf(),
            old(self)@.refuses(node_views(global_node_list@)) ==> (r matches Err(e) && e@
                == ErrorView::ConnectionProtocolEncoding) && final(self)@ == old(self)@,
            !old(self)@.refuses(node_views(global_node_list@)) ==> (r matches Ok(out) && {
                &&& final(self)@.args == old(self)@.args
                &&& final(self)@.kaspa == old(self)@.kaspa.updated(node_views(global_node_list@))
                &&& final(self)@.sparkle == old(self)@.sparkle.updated(
                    unclaimed(node_views(global_node_list@), Service::Kaspa),
                )
                &&& out.kaspa.stopped@ == old(self)@.kaspa.stopped_by(
                    node_views(global_node_list@),
                )
                &&& out.kaspa.started@ == old(self)@.kaspa.pruned(
                    node_views(global_node_list@),
                ).started_by(claimed(node_views(global_node_list@), Service::Kaspa))
                &&& out.sparkle.stopped@ == old(self)@.sparkle.stopped_by(
                    unclaimed(node_views(global_node_list@), Service::Kaspa),
                )
                &&& out.sparkle.started@ == old(self)@.sparkle.pruned(
                    unclaimed(node_views(global_node_list@), Service::Kaspa),
                ).started_by(
                    claimed(
                        unclaimed(node_views(global_node_list@), Service::Kaspa),
                        Service::Sparkle,
                    ),
                )
                &&& node_views(out.dangling@) == unclaimed(
                    unclaimed(node_views(global_node_list@), Service::Kaspa),
                    Service::Sparkle,
                )
            }),
    {
        let mut list = global_node_list;
        if self.kaspa.refuses(&list) || self.sparkle.refuses(&list) {
            return Err(Error::ConnectionProtocolEncoding);
        }
        proof {
            crate::monitor::lemma_refuses_unclaimed(
                self@.sparkle,
                node_views(list@),
                Service::Kaspa,
            );
        }
        let kaspa = match self.kaspa.update_nodes(&mut list) {
            Ok(delta) => delta,
            Err(e) => {
                return Err(e);
            },
        };
        let sparkle = match self.sparkle.update_nodes(&mut list) {
            Ok(delta) => delta,
            Err(e) => {
                return Err(e);
            },
        };
        Ok(Reconciled { kaspa, sparkle, dangling: list })
    }

    /// Returns all connections, those of the first service first, each
    /// service as the buckets of concrete TLS kind list them.
    pub fn connections(&self) -> (list: Vec<&Connection>)
        requires
            self.wf(),
        ensures
            list@.len() == self@.listing().len(),
            forall|k: int|
                0 <= k < self@.kaspa.listing().len() ==> (#[trigger] list@[k])@
                    == self@.kaspa.conn(self@.kaspa.listing()[k]),
            forall|k: int|
                self@.kaspa.listing().len() <= k < list@.len() ==> (#[trigger] list@[k])@
                    == self@.sparkle.conn(self@.sparkle.listing()[k - self@.kaspa.listing().len()]),
    {
        let mut out = self.kaspa.to_vec();
        let mut more = self.sparkle.to_vec();
        let ghost head = out@;
        let ghost tail = more@;
        out.append(&mut more);
        proof {
            assert(out@ =~= head + tail);
        }
        out
    }

    /// Elects a node of the first service for a path and returns the JSON
    /// object that names it. There is a result if and only if the path has
    /// a candidate, and it names one of the candidates.
    pub fn get_elected_kaspa(&self, params: &PathParams) -> (json: Option<String>)
        requires
            self.wf(),
        ensures
            json is Some <==> self@.kaspa.candidates(*params).len() > 0,
            json matches Some(s) ==> exists|k: int|
                0 <= k < self@.kaspa.candidates(*params).len() && s@ == output_of(
                    self@.kaspa.conns[index_of(
                        self@.kaspa.conns,
                        #[trigger] self@.kaspa.candidates(*params)[k],
                    )],
                ),
    {
        self.kaspa.election(params)
    }

    /// Elects a node of the second service for a path and returns the JSON
    /// object that names it. There is a result if and only if the path has
    /// a candidate, and it names one of the candidates.
    pub fn get_elected_sparkle(&self, params: &PathParams) -> (json: Option<String>)
        requires
            self.wf(),
        ensures
            json is Some <==> self@.sparkle.candidates(*params).len() > 0,
            json matches Some(s) ==> exists|k: int|
                0 <= k < self@.sparkle.candidates(*params).len() && s@ == output_of(
                    self@.sparkle.conns[index_of(
                        self@.sparkle.conns,
                        #[trigger] self@.sparkle.candidates(*params)[k],
                    )],
                ),
    {
        self.sparkle.election(params)
    }
}

} // verus!
