//! The node-pool pricing metadata, end to end: nodes with the standard labels are
//! aggregated into pools, placed on a snapshot message, and survive the encoding
//! that the sender performs.

use kubesavings_agent::collector;
use kubesavings_agent::collector::{aggregate_node_pools, Labels};
use prost::bytes::{Buf, BufMut};
use prost::encoding::{self, DecodeContext, WireType};
use prost::{DecodeError, Message};

/// The wire form of a node pool.
#[derive(Clone, Debug, Default, PartialEq)]
struct NodePoolMessage {
    instance_type: String,
    region: String,
    capacity_type: String,
    node_count: u32,
}

impl Message for NodePoolMessage {
    fn encode_raw(&self, buf: &mut impl BufMut) {
        encoding::string::encode(1, &self.instance_type, buf);
        encoding::string::encode(2, &self.region, buf);
        encoding::string::encode(3, &self.capacity_type, buf);
        encoding::uint32::encode(4, &self.node_count, buf);
    }

    fn merge_field(
        &mut self,
        tag: u32,
        wire_type: WireType,
        buf: &mut impl Buf,
        ctx: DecodeContext,
    ) -> Result<(), DecodeError> {
        match tag {
            1 => encoding::string::merge(wire_type, &mut self.instance_type, buf, ctx),
            2 => encoding::string::merge(wire_type, &mut self.region, buf, ctx),
            3 => encoding::string::merge(wire_type, &mut self.capacity_type, buf, ctx),
            4 => encoding::uint32::merge(wire_type, &mut self.node_count, buf, ctx),
            _ => encoding::skip_field(wire_type, tag, buf, ctx),
        }
    }

    fn encoded_len(&self) -> usize {
        encoding::string::encoded_len(1, &self.instance_type)
            + encoding::string::encoded_len(2, &self.region)
            + encoding::string::encoded_len(3, &self.capacity_type)
            + encoding::uint32::encoded_len(4, &self.node_count)
    }

    fn clear(&mut self) {
        *self = Self::default();
    }
}

/// The wire form of a snapshot, as far as this test fills it.
#[derive(Clone, Debug, Default, PartialEq)]
struct SnapshotMessage {
    k8s_version: String,
    node_count: u32,
    cloud_provider: String,
    estimated_cluster_cost_usd: f64,
    collected_at: String,
    region: String,
    node_pools: Vec<NodePoolMessage>,
    agent_version: String,
}

impl Message for SnapshotMessage {
    fn encode_raw(&self, buf: &mut impl BufMut) {
        encoding::string::encode(1, &self.k8s_version, buf);
        encoding::uint32::encode(2, &self.node_count, buf);
        encoding::string::encode(3, &self.cloud_provider, buf);
        encoding::double::encode(6, &self.estimated_cluster_cost_usd, buf);
        encoding::string::encode(7, &self.collected_at, buf);
        encoding::string::encode(8, &self.region, buf);
        encoding::message::encode_repeated(9, &self.node_pools, buf);
        encoding::string::encode(10, &self.agent_version, buf);
    }

    fn merge_field(
        &mut self,
        tag: u32,
        wire_type: WireType,
        buf: &mut impl Buf,
        ctx: DecodeContext,
    ) -> Result<(), DecodeError> {
        match tag {
            1 => encoding::string::merge(wire_type, &mut self.k8s_version, buf, ctx),
            2 => encoding::uint32::merge(wire_type, &mut self.node_count, buf, ctx),
            3 => encoding::string::merge(wire_type, &mut self.cloud_provider, buf, ctx),
            6 => {
                encoding::double::merge(wire_type, &mut self.estimated_cluster_cost_usd, buf, ctx)
            }
            7 => encoding::string::merge(wire_type, &mut self.collected_at, buf, ctx),
            8 => encoding::string::merge(wire_type, &mut self.region, buf, ctx),
            9 => encoding::message::merge_repeated(wire_type, &mut self.node_pools, buf, ctx),
            10 => encoding::string::merge(wire_type, &mut self.agent_version, buf, ctx),
            _ => encoding::skip_field(wire_type, tag, buf, ctx),
        }
    }

    fn encoded_len(&self) -> usize {
        encoding::string::encoded_len(1, &self.k8s_version)
            + encoding::uint32::encoded_len(2, &self.node_count)
            + encoding::string::encoded_len(3, &self.cloud_provider)
            + encoding::double::encoded_len(6, &self.estimated_cluster_cost_usd)
            + encoding::string::encoded_len(7, &self.collected_at)
            + encoding::string::encoded_len(8, &self.region)
            + encoding::message::encoded_len_repeated(9, &self.node_pools)
            + encoding::string::encoded_len(10, &self.agent_version)
    }

    fn clear(&mut self) {
        *self = Self::default();
    }
}

fn node(instance_type: &str, region: &str, provider_id: &str) -> collector::Node {
    let text = r#"{
        "apiVersion": "v1",
        "kind": "Node",
        "metadata": {
            "name": "node",
            "labels": {
                "kubernetes.io/os": "linux",
                "node.kubernetes.io/instance-type": "INSTANCE",
                "topology.kubernetes.io/region": "REGION"
            }
        },
        "spec": { "providerID": "PROVIDER" }
    }"#
    .replace("INSTANCE", instance_type)
    .replace("REGION", region)
    .replace("PROVIDER", provider_id);
    let n: k8s_openapi::api::core::v1::Node = serde_json::from_str(&text).expect("node should deserialize");
    let mut labels = Labels::new();
    for (k, v) in n.metadata.labels.expect("labels") {
        labels.insert(k, v);
    }
    collector::Node {
        labels: Some(labels),
        provider_id: n.spec.and_then(|s| s.provider_id),
        status: None,
    }
}

#[test]
fn snapshot_carries_node_pools_and_region_through_protobuf() {
    let nodes = vec![
        node("m5.xlarge", "us-east-1", "aws:///us-east-1a/i-1"),
        node("m5.xlarge", "us-east-1", "aws:///us-east-1a/i-2"),
        node("c5.2xlarge", "us-east-1", "aws:///us-east-1b/i-3"),
    ];

    let (node_pools, region, cloud_provider) = aggregate_node_pools(&nodes);

    let snapshot = SnapshotMessage {
        k8s_version: "1.29".to_string(),
        node_count: nodes.len() as u32,
        cloud_provider,
        estimated_cluster_cost_usd: 0.0,
        collected_at: "2026-06-26T00:00:00+00:00".to_string(),
        region,
        node_pools: node_pools
            .into_iter()
            .map(|p| NodePoolMessage {
                instance_type: p.instance_type,
                region: p.region,
                capacity_type: p.capacity_type,
                node_count: p.node_count,
            })
            .collect(),
        agent_version: "1.2.0".to_string(),
    };

    // Round-trip through protobuf, exactly as the sender does.
    let bytes = snapshot.encode_to_vec();
    let decoded = SnapshotMessage::decode(bytes.as_slice()).expect("snapshot should decode");

    assert_eq!(decoded.region, "us-east-1");
    assert_eq!(decoded.cloud_provider, "aws");
    assert!(
        !decoded.node_pools.is_empty(),
        "node_pools must be populated"
    );

    let total: u32 = decoded.node_pools.iter().map(|p| p.node_count).sum();
    assert_eq!(total, 3);

    // The two m5.xlarge nodes collapse into one pool; c5.2xlarge is its own.
    assert_eq!(decoded.node_pools.len(), 2);
    let m5 = decoded
        .node_pools
        .iter()
        .find(|p| p.instance_type == "m5.xlarge")
        .expect("m5.xlarge pool");
    assert_eq!(m5.node_count, 2);
    assert_eq!(m5.region, "us-east-1");
    assert_eq!(m5.capacity_type, "on-demand");
}
