# docker-stats

A small Prometheus exporter for running Docker containers. It watches the starts
and ends of containers, streams Docker's measurements of each running container,
and serves a cached text feed:

- `GET /metrics` for the metrics
- `GET /health` for a healthcheck

The logic is a library that is verified with Verus (`src/`); the program around
it (`app/`) connects to the Docker daemon, listens for requests and forms the
floating-point numbers.

| module | what it holds |
| --- | --- |
| `docker_events::filter` | which events of the daemon to watch |
| `docker_events::requests` | what else is asked of the daemon |
| `docker_events::identity` | who a container is |
| `docker_events::stats` | what a container consumes |
| `tracking` | which containers are tracked, and what is known of them |
| `labels` | the labels of a container |
| `metrics` | the samples and their text |
| `rfc3339` | points in time |
| `http` | requests and responses |
| `config` | the settings and the options that change them |
| `string_map`, `order`, `text` | maps, sorting and texts |
