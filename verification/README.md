# localhost

A single-threaded HTTP/1.1 server for Linux whose decisions are proved with Verus.

The library in `src/` holds everything that the server decides: the configuration and its checks,
the parser of requests, routing, static files, uploads, sessions, CGI scripts, and what follows
from every event on a connection. It does no input or output of its own. What the file system or
another process has to be asked is a `handler::Step`; what the system has to do is a
`server::Effect`. The program in `app/` carries them out with `epoll`, `fork` and the file system,
and hands the results back.

| Module | What it holds |
|---|---|
| `config` | the configuration file, and the conflicts for which it is refused |
| `request`, `wire` | the parser of requests, and that it reads what clients write |
| `response` | responses and how they are sent |
| `router` | the choice of the server and of the location |
| `handler`, `multipart`, `path` | the steps of a request, uploads, paths |
| `cgi` | the environment, the pipes and the output of scripts |
| `session` | sessions in memory and the cookie that names them |
| `event_loop` | watched descriptors and what their events ask for |
| `turns`, `server` | what every event does to the connections, as a model and as code |
| `listener` | listening sockets and their addresses |
| `text`, `number`, `bytes`, `seqs`, `encoding`, `assoc`, `string_map`, `clock` | what the others are built on |

Functions whose names start with `law_` state what holds of the library as a whole.

Run the server with the path of a configuration file:

```nginx
server {
    host 0.0.0.0;
    listen 8080;
    server_name localhost;
    client_max_body_size 10M;
    error_page 404 ./www/errors/404.html;

    location / {
        root ./www;
        index index.html;
        allow_methods GET POST DELETE;
        autoindex on;
    }

    location /upload {
        allow_methods POST;
        upload_dir ./www/uploads;
    }
}
```
